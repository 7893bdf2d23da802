//! What the binary transport promises as a whole: whatever the order in which
//! enough packets arrive, the receiver hands out the file, once.

use crate::binary::{
    binary_packets, data_packet, header_bytes, law_binary_header_round_trip, lemma_symbol_read,
    parity_of, parity_packet, parsed_header, BinaryHeaderView, BINARY_DATA_TYPE, BINARY_HEADER_TYPE,
    BINARY_PARITY_TYPE,
};
use crate::binary_receiver::{
    group_of, is_header_packet, is_symbol_packet, law_codecs_have_names, lemma_repaired_wf,
    lemma_stored_wf, mixed_in, rebuildable, rebuilt, with_rebuilt, BinaryReceiverInfo, BinaryView,
};
use crate::bytes::{
    lemma_xor_assoc, lemma_xor_comm, lemma_xor_swap, lemma_xor_twice, lemma_xor_zeros, padded,
    u32_at, u64_at, xor_bytes, zeros,
};
use crate::checksum::fnv1a;
use crate::codec::sha256;
use crate::layout::{
    border, byte_at, law_numbers_are_read_from_bytes, least, lemma_first_four, read_be,
};
use crate::notation::{is_hex, law_checksum_notation, law_digest_notation, read_hex};
use crate::store::{all_present, count_set, in_order, law_progress_counts_the_map};
use crate::transfer::{
    law_own_chunks_restore_the_file, lemma_chunk_count, piece, source_chunk, source_chunks,
    BINARY_MAX_PENDING_PACKETS,
};
use vstd::prelude::*;
use vstd::utf8::*;

verus! {

/// The receiver after a series of packets.
pub open spec fn binary_run(state: BinaryView, packets: Seq<Seq<u8>>) -> BinaryView
    decreases packets.len(),
{
    if packets.len() == 0 {
        state
    } else {
        binary_run(state, packets.drop_last()).processed(packets.last()).0
    }
}

/// The files handed out during a series of packets.
pub open spec fn binary_files(state: BinaryView, packets: Seq<Seq<u8>>) -> Seq<Seq<u8>>
    decreases packets.len(),
{
    if packets.len() == 0 {
        Seq::empty()
    } else {
        let earlier = binary_files(state, packets.drop_last());
        match binary_run(state, packets.drop_last()).processed(packets.last()).1 {
            Some(file) => earlier.push(file),
            None => earlier,
        }
    }
}

/// Whether a chunk can be had from the packets received of a transfer: its data
/// packet came, or else the parity packet of its group and the data packets of
/// all other chunks of the group.
pub open spec fn can_be_had(
    header: BinaryHeaderView,
    encoded: Seq<u8>,
    packets: Seq<Seq<u8>>,
    index: usize,
) -> bool {
    packets.contains(data_packet(header, encoded, index as nat)) || {
        &&& header.fec_group_size > 0
        &&& packets.contains(parity_packet(header, encoded, group_of(index) as nat))
        &&& forall|other: usize|
            other < header.file.data_packets && group_of(other) == group_of(index) && other
                != index ==> packets.contains(
                #[trigger] data_packet(header, encoded, other as nat),
            )
    }
}

/// Whether the packets received of a transfer are enough: every chunk can be had.
pub open spec fn binary_enough(
    header: BinaryHeaderView,
    encoded: Seq<u8>,
    packets: Seq<Seq<u8>>,
) -> bool {
    forall|index: usize|
        index < header.file.data_packets ==> #[trigger] can_be_had(
            header,
            encoded,
            packets,
            index,
        )
}

/// Whether a receiver holds what `seen` brought of a transfer, as it was sent, and
/// nothing that cannot be had from it, and has rebuilt all that it can.
#[verifier::opaque]
spec fn holding(
    state: BinaryView,
    header: BinaryHeaderView,
    encoded: Seq<u8>,
    seen: Seq<Seq<u8>>,
) -> bool {
    let chunks = source_chunks(encoded, header.file.chunk_size);
    &&& state.wf()
    &&& state.header == Some(header)
    &&& forall|i: usize| #[trigger]
        state.chunks.contains_key(i) ==> state.chunks[i] == chunks[i as int] && can_be_had(
            header,
            encoded,
            seen,
            i,
        )
    &&& forall|g: usize| #[trigger]
        state.parity.contains_key(g) ==> state.parity[g] == parity_of(
            chunks,
            g as nat * header.fec_group_size,
            header.group_end(g as nat),
            header.file.chunk_size,
        ) && seen.contains(parity_packet(header, encoded, g as nat))
    &&& forall|i: usize|
        i < header.file.data_packets && seen.contains(
            #[trigger] data_packet(header, encoded, i as nat),
        ) ==> state.chunks.contains_key(i)
    &&& forall|g: usize|
        g < header.group_count() && seen.contains(
            #[trigger] parity_packet(header, encoded, g as nat),
        ) ==> state.parity.contains_key(g)
    &&& forall|i: usize| !(#[trigger] rebuildable(header, state.chunks, state.parity, i))
}

/// Whether a receiver is well on its way in a transfer: it holds what came, and
/// it is complete once nothing is missing.
#[verifier::opaque]
spec fn on_course(
    state: BinaryView,
    header: BinaryHeaderView,
    encoded: Seq<u8>,
    seen: Seq<Seq<u8>>,
) -> bool {
    &&& holding(state, header, encoded, seen)
    &&& state.complete == all_present(state.chunks.dom(), header.file.data_packets)
}

// ---------------------------------------------------------------------------
// Rebuilding

/// One pass rebuilds all that can be rebuilt: a second pass finds nothing.
pub proof fn law_one_repair_is_enough(state: BinaryView, header: BinaryHeaderView)
    requires
        state.wf(),
        state.header == Some(header),
    ensures
        forall|i: usize|
            !(#[trigger] rebuildable(
                header,
                state.repaired().chunks,
                state.repaired().parity,
                i,
            )),
{
    let after = state.repaired().chunks;
    assert forall|i: usize| !(#[trigger] rebuildable(header, after, state.parity, i)) by {
        if rebuildable(header, after, state.parity, i) {
            assert(!state.chunks.contains_key(i));
            assert(group_of(i) < header.group_count());
            assert(!rebuildable(header, state.chunks, state.parity, i));
            let other = choose|other: usize|
                #![trigger state.chunks.contains_key(other)]
                other < header.file.data_packets && group_of(other) == group_of(i) && other != i
                    && !state.chunks.contains_key(other);
            assert(after.contains_key(other));
            assert(rebuildable(header, state.chunks, state.parity, other));
        }
    }
}

proof fn lemma_parity_length(chunks: Seq<Seq<u8>>, start: nat, end: nat, length: nat)
    ensures
        parity_of(chunks, start, end, length).len() == length,
    decreases end,
{
    if end > start {
        lemma_parity_length(chunks, start, (end - 1) as nat, length);
    }
}

proof fn lemma_mixed_in(
    payload: Seq<u8>,
    held: Map<usize, Seq<u8>>,
    chunks: Seq<Seq<u8>>,
    start: nat,
    end: nat,
    except: nat,
    length: nat,
)
    requires
        payload.len() == length,
        start <= except,
        start <= end <= chunks.len() <= usize::MAX,
        except < chunks.len(),
        forall|i: int| 0 <= i < chunks.len() ==> (#[trigger] chunks[i]).len() == length,
        forall|i: usize| start <= i < end && i != except ==> #[trigger] held[i] == chunks[i as int],
    ensures
        mixed_in(payload, held, start, end, except) == (if end <= except {
            xor_bytes(payload, parity_of(chunks, start, end, length))
        } else {
            xor_bytes(
                xor_bytes(payload, parity_of(chunks, start, end, length)),
                chunks[except as int],
            )
        }),
    decreases end,
{
    if end <= start {
        lemma_xor_zeros(payload);
    } else {
        let last = (end - 1) as nat;
        lemma_mixed_in(payload, held, chunks, start, last, except, length);
        let before = parity_of(chunks, start, last, length);
        let value = chunks[last as int];
        lemma_parity_length(chunks, start, last, length);
        lemma_xor_assoc(payload, before, value);
        if last == except {
            lemma_xor_twice(xor_bytes(payload, before), value);
        } else {
            assert(held[last as usize] == value);
            if last > except {
                lemma_xor_swap(xor_bytes(payload, before), chunks[except as int], value);
            }
        }
    }
}

/// What is rebuilt from true chunks and a true parity is the chunk that was
/// lost.
pub proof fn law_rebuilt_chunk_is_the_source(
    header: BinaryHeaderView,
    encoded: Seq<u8>,
    held: Map<usize, Seq<u8>>,
    parity: Map<usize, Seq<u8>>,
    index: usize,
)
    requires
        header.acceptable(),
        header.file.compressed_size == encoded.len(),
        rebuildable(header, held, parity, index),
        forall|i: usize| #[trigger]
            held.contains_key(i) ==> i < header.file.data_packets && held[i] == source_chunk(
                encoded,
                header.file.chunk_size,
                i as nat,
            ),
        parity[group_of(index)] == parity_of(
            source_chunks(encoded, header.file.chunk_size),
            group_of(index) as nat * header.fec_group_size,
            header.group_end(group_of(index) as nat),
            header.file.chunk_size,
        ),
    ensures
        rebuilt(header, held, parity, index) == source_chunk(
            encoded,
            header.file.chunk_size,
            index as nat,
        ),
{
    let length = header.file.chunk_size;
    let chunks = source_chunks(encoded, length);
    let group = group_of(index) as nat;
    let start = group * header.fec_group_size;
    let end = header.group_end(group);
    let payload = parity[group_of(index)];
    let size = header.fec_group_size;
    assert(group * size == group * 8 && (group + 1) * size == group * 8 + 8) by (nonlinear_arith)
        requires
            size == 8,
    ;
    lemma_parity_length(chunks, start, end, length);
    assert forall|i: usize| start <= i < end && i != index implies #[trigger] held[i]
        == chunks[i as int] by {
        assert(group_of(i) == group_of(index));
        assert(held.contains_key(i));
    }
    lemma_mixed_in(payload, held, chunks, start, end, index as nat, length);
    let lost = chunks[index as int];
    // payload + payload = 0, and 0 + lost = lost
    lemma_xor_zeros(payload);
    lemma_xor_comm(payload, zeros(length));
    lemma_xor_twice(zeros(length), payload);
    assert(xor_bytes(payload, payload) == zeros(length));
    lemma_xor_zeros(lost);
}

// ---------------------------------------------------------------------------
// Delivery

proof fn lemma_kinds(header: BinaryHeaderView, encoded: Seq<u8>, number: nat)
    requires
        header.acceptable(),
        number < 0x1_0000_0000,
    ensures
        is_header_packet(header_bytes(header)),
        is_symbol_packet(data_packet(header, encoded, number)),
        is_symbol_packet(parity_packet(header, encoded, number)),
        data_packet(header, encoded, number)[3] == BINARY_DATA_TYPE,
        parity_packet(header, encoded, number)[3] == BINARY_PARITY_TYPE,
        header_bytes(header)[3] == BINARY_HEADER_TYPE,
        !is_header_packet(data_packet(header, encoded, number)),
        !is_header_packet(parity_packet(header, encoded, number)),
{
    law_binary_header_round_trip(header);
    lemma_symbol_read(
        BINARY_DATA_TYPE,
        header.file.checksum,
        number,
        piece(encoded, header.file.chunk_size, number),
    );
    lemma_symbol_read(
        BINARY_PARITY_TYPE,
        header.file.checksum,
        number,
        parity_of(
            source_chunks(encoded, header.file.chunk_size),
            number * header.fec_group_size,
            header.group_end(number),
            header.file.chunk_size,
        ),
    );
}

/// Whether a packet is a data or parity packet of a transfer.
spec fn is_symbol_of(header: BinaryHeaderView, encoded: Seq<u8>, packet: Seq<u8>) -> bool {
    ||| exists|i: usize|
        i < header.file.data_packets && packet == #[trigger] data_packet(header, encoded, i as nat)
    ||| exists|g: usize|
        g < header.group_count() && packet == #[trigger] parity_packet(header, encoded, g as nat)
}

/// Storing a packet of the transfer adds what it carries.
#[verifier::rlimit(60)]
proof fn lemma_stored(
    state: BinaryView,
    header: BinaryHeaderView,
    encoded: Seq<u8>,
    packet: Seq<u8>,
)
    requires
        state.wf(),
        state.header == Some(header),
        header.file.compressed_size == encoded.len(),
        is_symbol_of(header, encoded, packet),
    ensures
        state.stored(packet) is Some,
        forall|i: usize|
            i < header.file.data_packets && packet == #[trigger] data_packet(
                header,
                encoded,
                i as nat,
            ) ==> state.stored(packet) == Some(
                BinaryView {
                    chunks: state.chunks.insert(
                        i,
                        source_chunk(encoded, header.file.chunk_size, i as nat),
                    ),
                    ..state
                },
            ),
        forall|g: usize|
            g < header.group_count() && packet == #[trigger] parity_packet(
                header,
                encoded,
                g as nat,
            ) ==> state.stored(packet) == Some(
                BinaryView {
                    parity: if state.parity.contains_key(g) {
                        state.parity
                    } else {
                        state.parity.insert(
                            g,
                            parity_of(
                                source_chunks(encoded, header.file.chunk_size),
                                g as nat * header.fec_group_size,
                                header.group_end(g as nat),
                                header.file.chunk_size,
                            ),
                        )
                    },
                    ..state
                },
            ),
{
    assert forall|i: usize|
        i < header.file.data_packets && packet == #[trigger] data_packet(
            header,
            encoded,
            i as nat,
        ) implies state.stored(packet) == Some(
        BinaryView {
            chunks: state.chunks.insert(
                i,
                source_chunk(encoded, header.file.chunk_size, i as nat),
            ),
            ..state
        },
    ) by {
        lemma_symbol_read(
            BINARY_DATA_TYPE,
            header.file.checksum,
            i as nat,
            piece(encoded, header.file.chunk_size, i as nat),
        );
    }
    assert forall|g: usize|
        g < header.group_count() && packet == #[trigger] parity_packet(
            header,
            encoded,
            g as nat,
        ) implies state.stored(packet) == Some(
        BinaryView {
            parity: if state.parity.contains_key(g) {
                state.parity
            } else {
                state.parity.insert(
                    g,
                    parity_of(
                        source_chunks(encoded, header.file.chunk_size),
                        g as nat * header.fec_group_size,
                        header.group_end(g as nat),
                        header.file.chunk_size,
                    ),
                )
            },
            ..state
        },
    ) by {
        let payload = parity_of(
            source_chunks(encoded, header.file.chunk_size),
            g as nat * header.fec_group_size,
            header.group_end(g as nat),
            header.file.chunk_size,
        );
        lemma_parity_length(
            source_chunks(encoded, header.file.chunk_size),
            g as nat * header.fec_group_size,
            header.group_end(g as nat),
            header.file.chunk_size,
        );
        lemma_symbol_read(BINARY_PARITY_TYPE, header.file.checksum, g as nat, payload);
    }
}

proof fn lemma_more_contains(seen: Seq<Seq<u8>>, packet: Seq<u8>, wanted: Seq<u8>)
    requires
        seen.contains(wanted),
    ensures
        seen.push(packet).contains(wanted),
{
    let at = choose|at: int| 0 <= at < seen.len() && seen[at] == wanted;
    assert(seen.push(packet)[at] == wanted);
}

/// What can be had from some packets can be had from more.
proof fn lemma_more_can_be_had(
    header: BinaryHeaderView,
    encoded: Seq<u8>,
    seen: Seq<Seq<u8>>,
    packet: Seq<u8>,
    index: usize,
)
    requires
        can_be_had(header, encoded, seen, index),
    ensures
        can_be_had(header, encoded, seen.push(packet), index),
{
    let more = seen.push(packet);
    if seen.contains(data_packet(header, encoded, index as nat)) {
        lemma_more_contains(seen, packet, data_packet(header, encoded, index as nat));
    } else {
        lemma_more_contains(
            seen,
            packet,
            parity_packet(header, encoded, group_of(index) as nat),
        );
        assert forall|other: usize|
            other < header.file.data_packets && group_of(other) == group_of(index) && other
                != index implies more.contains(
            #[trigger] data_packet(header, encoded, other as nat),
        ) by {
            lemma_more_contains(seen, packet, data_packet(header, encoded, other as nat));
        }
    }
}

/// A packet of the transfer is held with all that came before.
#[verifier::rlimit(60)]
proof fn lemma_accepted_holding(
    state: BinaryView,
    header: BinaryHeaderView,
    encoded: Seq<u8>,
    seen: Seq<Seq<u8>>,
    packet: Seq<u8>,
)
    requires
        holding(state, header, encoded, seen),
        header.file.compressed_size == encoded.len(),
        is_symbol_of(header, encoded, packet),
    ensures
        holding(state.accepted(packet).0, header, encoded, seen.push(packet)),
        state.accepted(packet).0.complete ==> state.complete || state.accepted(packet).1 is Some,
{
    reveal(holding);
    let chunks = source_chunks(encoded, header.file.chunk_size);
    lemma_stored(state, header, encoded, packet);
    lemma_stored_wf(state, packet);
    let next = state.stored(packet)->0;
    let more = seen.push(packet);
    assert(more.last() == packet);
    lemma_chunk_count(encoded.len(), header.file.chunk_size);
    assert forall|i: usize| #[trigger] next.chunks.contains_key(i) implies next.chunks[i]
        == chunks[i as int] && can_be_had(header, encoded, more, i) by {
        if state.chunks.contains_key(i) {
            lemma_more_can_be_had(header, encoded, seen, packet, i);
        } else {
            assert(packet == data_packet(header, encoded, i as nat));
            assert(more[seen.len() as int] == packet);
        }
    }
    assert forall|g: usize| #[trigger] next.parity.contains_key(g) implies more.contains(
        parity_packet(header, encoded, g as nat),
    ) by {
        if state.parity.contains_key(g) {
            lemma_more_contains(seen, packet, parity_packet(header, encoded, g as nat));
        } else {
            assert(packet == parity_packet(header, encoded, g as nat));
            assert(more[seen.len() as int] == packet);
        }
    }
    assert forall|i: usize|
        i < header.file.data_packets && more.contains(
            #[trigger] data_packet(header, encoded, i as nat),
        ) implies next.chunks.contains_key(i) by {
        let wanted = data_packet(header, encoded, i as nat);
        if wanted != packet {
            let at = choose|at: int| 0 <= at < more.len() && more[at] == wanted;
            assert(seen[at] == wanted);
            assert(state.chunks.contains_key(i));
        }
    }
    assert forall|g: usize|
        g < header.group_count() && more.contains(
            #[trigger] parity_packet(header, encoded, g as nat),
        ) implies next.parity.contains_key(g) by {
        let wanted = parity_packet(header, encoded, g as nat);
        if wanted != packet {
            let at = choose|at: int| 0 <= at < more.len() && more[at] == wanted;
            assert(seen[at] == wanted);
            assert(state.parity.contains_key(g));
        }
    }
    lemma_repaired_wf(next);
    law_one_repair_is_enough(next, header);
    let whole = next.repaired();
    assert forall|i: usize| #[trigger] whole.chunks.contains_key(i) implies whole.chunks[i]
        == chunks[i as int] && can_be_had(header, encoded, more, i) by {
        if !next.chunks.contains_key(i) {
            assert forall|j: usize|
                j < header.file.data_packets && group_of(j) == group_of(i) && j
                    != i implies more.contains(
                #[trigger] data_packet(header, encoded, j as nat),
            ) by {
                assert(next.chunks.contains_key(j));
                assert(can_be_had(header, encoded, more, j));
                if !more.contains(data_packet(header, encoded, j as nat)) {
                    assert(more.contains(data_packet(header, encoded, i as nat)));
                }
            }
            assert(next.parity.contains_key(group_of(i)));
            assert forall|j: usize| #[trigger] next.chunks.contains_key(j) implies j
                < header.file.data_packets && next.chunks[j] == source_chunk(
                encoded,
                header.file.chunk_size,
                j as nat,
            ) by {
                assert(next.chunks[j] == chunks[j as int]);
            }
            law_rebuilt_chunk_is_the_source(header, encoded, next.chunks, next.parity, i);
        }
    }
}

/// A packet of the transfer keeps the receiver on course, and the file is
/// handed out by the packet that completes it.
#[verifier::rlimit(60)]
proof fn lemma_accepted(
    state: BinaryView,
    header: BinaryHeaderView,
    encoded: Seq<u8>,
    file: Seq<u8>,
    seen: Seq<Seq<u8>>,
    packet: Seq<u8>,
)
    requires
        on_course(state, header, encoded, seen),
        header.file.describes(encoded, file),
        is_symbol_of(header, encoded, packet),
    ensures
        on_course(state.accepted(packet).0, header, encoded, seen.push(packet)),
        state.complete ==> state.accepted(packet).0.complete,
        state.accepted(packet).1 == (if !state.complete && state.accepted(packet).0.complete {
            Some(file)
        } else {
            None
        }),
{
    reveal(on_course);
    lemma_accepted_holding(state, header, encoded, seen, packet);
    reveal(holding);
    lemma_stored(state, header, encoded, packet);
    lemma_stored_wf(state, packet);
    let next = state.stored(packet)->0;
    lemma_repaired_wf(next);
    let whole = next.repaired();
    assert(state.accepted(packet).0.chunks == whole.chunks);
    if all_present(whole.chunks.dom(), header.file.data_packets) {
        assert forall|i: usize| i < header.file.data_packets implies #[trigger] whole.chunks[i]
            == source_chunk(encoded, header.file.chunk_size, i as nat) by {
            assert(whole.chunks.dom().contains(i));
            assert(state.accepted(packet).0.chunks.contains_key(i));
        }
        lemma_all_genuine(whole, header, encoded, file);
    }
}

/// Chunks that are all there and all genuine give the file.
proof fn lemma_all_genuine(
    state: BinaryView,
    header: BinaryHeaderView,
    encoded: Seq<u8>,
    file: Seq<u8>,
)
    requires
        header.file.describes(encoded, file),
        all_present(state.chunks.dom(), header.file.data_packets),
        forall|i: usize|
            i < header.file.data_packets ==> #[trigger] state.chunks[i] == source_chunk(
                encoded,
                header.file.chunk_size,
                i as nat,
            ),
    ensures
        header.file.restored(in_order(state.chunks, header.file.data_packets)) == Some(file),
{
    let chunks = source_chunks(encoded, header.file.chunk_size);
    assert forall|i: int| 0 <= i < header.file.data_packets implies #[trigger] in_order(
        state.chunks,
        header.file.data_packets,
    )[i] == chunks[i] by {
        assert(state.chunks[i as usize] == source_chunk(
            encoded,
            header.file.chunk_size,
            i as usize as nat,
        ));
    }
    assert(in_order(state.chunks, header.file.data_packets) =~= chunks);
    law_own_chunks_restore_the_file(header.file, encoded, file);
}

#[verifier::rlimit(60)]
proof fn lemma_replayed(
    header: BinaryHeaderView,
    encoded: Seq<u8>,
    file: Seq<u8>,
    list: Seq<Seq<u8>>,
)
    requires
        header.acceptable(),
        header.file.describes(encoded, file),
        forall|k: int| 0 <= k < list.len() ==> is_symbol_of(header, encoded, #[trigger] list[k]),
    ensures
        on_course(BinaryView::begun(header).replayed(list).0, header, encoded, list),
        BinaryView::begun(header).replayed(list).1 == (if BinaryView::begun(header).replayed(
            list,
        ).0.complete {
            Some(file)
        } else {
            None
        }),
    decreases list.len(),
{
    let fresh = BinaryView::begun(header);
    if list.len() == 0 {
        reveal(on_course);
        reveal(holding);
        assert(!fresh.chunks.dom().contains(0usize));
        assert(!all_present(fresh.chunks.dom(), header.file.data_packets));
    } else {
        let earlier = list.drop_last();
        assert forall|k: int| 0 <= k < earlier.len() implies is_symbol_of(
            header,
            encoded,
            #[trigger] earlier[k],
        ) by {
            assert(earlier[k] == list[k]);
        }
        lemma_replayed(header, encoded, file, earlier);
        assert(is_symbol_of(header, encoded, list[list.len() - 1]));
        lemma_accepted(
            fresh.replayed(earlier).0,
            header,
            encoded,
            file,
            earlier,
            list.last(),
        );
        assert(earlier.push(list.last()) =~= list);
    }
}

/// A receiver on course has nothing to hand out, and gains nothing from the
/// header.
#[verifier::rlimit(60)]
proof fn lemma_quiet(
    state: BinaryView,
    header: BinaryHeaderView,
    encoded: Seq<u8>,
    seen: Seq<Seq<u8>>,
)
    requires
        on_course(state, header, encoded, seen),
    ensures
        state.header == Some(header),
        header.acceptable(),
        state.finished() == (state, None::<Seq<u8>>),
        state.processed(header_bytes(header)) == (state, None::<Seq<u8>>),
{
    reveal(on_course);
    reveal(holding);
    law_binary_header_round_trip(header);
    lemma_kinds(header, encoded, 0);
}

/// What has happened after some packets of a transfer.
spec fn delivered(
    header: BinaryHeaderView,
    encoded: Seq<u8>,
    file: Seq<u8>,
    packets: Seq<Seq<u8>>,
) -> bool {
    let state = binary_run(BinaryView::empty(), packets);
    let files = binary_files(BinaryView::empty(), packets);
    if packets.contains(header_bytes(header)) {
        &&& on_course(state, header, encoded, packets)
        &&& files == (if state.complete {
            seq![file]
        } else {
            Seq::empty()
        })
    } else {
        &&& state == (BinaryView { pending: packets, ..BinaryView::empty() })
        &&& files == Seq::<Seq<u8>>::empty()
    }
}

#[verifier::rlimit(60)]
proof fn lemma_delivered(
    header: BinaryHeaderView,
    encoded: Seq<u8>,
    file: Seq<u8>,
    packets: Seq<Seq<u8>>,
)
    requires
        header.acceptable(),
        header.file.describes(encoded, file),
        forall|k: int|
            0 <= k < packets.len() ==> (#[trigger] packets[k]) == header_bytes(header)
                || is_symbol_of(header, encoded, packets[k]),
        packets.len() <= BINARY_MAX_PENDING_PACKETS || exists|k: int|
            0 <= k <= BINARY_MAX_PENDING_PACKETS && k < packets.len() && (#[trigger] packets[k])
                == header_bytes(header),
    ensures
        delivered(header, encoded, file, packets),
    decreases packets.len(),
{
    let start = BinaryView::empty();
    let opening = header_bytes(header);
    if packets.len() == 0 {
        assert(BinaryView { pending: packets, ..start } =~= start);
    } else {
        let earlier = packets.drop_last();
        let packet = packets.last();
        assert(packet == packets[packets.len() - 1]);
        assert forall|k: int| 0 <= k < earlier.len() implies (#[trigger] earlier[k]) == opening
            || is_symbol_of(header, encoded, earlier[k]) by {
            assert(earlier[k] == packets[k]);
        }
        if earlier.len() > BINARY_MAX_PENDING_PACKETS {
            let k = choose|k: int|
                0 <= k <= BINARY_MAX_PENDING_PACKETS && k < packets.len() && (
                #[trigger] packets[k]) == opening;
            assert(earlier[k] == opening);
        }
        lemma_delivered(header, encoded, file, earlier);
        let state = binary_run(start, earlier);
        assert(earlier.push(packet) =~= packets);
        assert(packets.contains(opening) <==> earlier.contains(opening) || packet == opening) by {
            if earlier.contains(opening) {
                let k = choose|k: int| 0 <= k < earlier.len() && earlier[k] == opening;
                assert(packets[k] == opening);
            }
            if packets.contains(opening) && packet != opening {
                let k = choose|k: int| 0 <= k < packets.len() && packets[k] == opening;
                assert(earlier[k] == opening);
            }
        }
        law_binary_header_round_trip(header);
        lemma_kinds(header, encoded, 0);
        if packet == opening {
            if earlier.contains(opening) {
                lemma_quiet(state, header, encoded, earlier);
                lemma_header_is_no_symbol(state, header, encoded, earlier);
            } else {
                assert forall|k: int| 0 <= k < earlier.len() implies is_symbol_of(
                    header,
                    encoded,
                    #[trigger] earlier[k],
                ) by {
                    assert(earlier.contains(earlier[k]));
                }
                lemma_replayed(header, encoded, file, earlier);
                let after = BinaryView::begun(header).replayed(earlier).0;
                lemma_quiet(after, header, encoded, earlier);
                lemma_header_is_no_symbol(after, header, encoded, earlier);
                assert(binary_files(start, packets) =~= (if after.complete {
                    seq![file]
                } else {
                    Seq::empty()
                }));
            }
        } else {
            lemma_symbol_kind(header, encoded, packet);
            if earlier.contains(opening) {
                lemma_quiet(state, header, encoded, earlier);
                lemma_accepted(state, header, encoded, file, earlier, packet);
                assert(state.processed(packet) == state.accepted(packet));
                let after = state.accepted(packet).0;
                assert(binary_files(start, packets) =~= (if after.complete {
                    seq![file]
                } else {
                    Seq::empty()
                }));
            } else {
                assert(earlier.len() < BINARY_MAX_PENDING_PACKETS) by {
                    if earlier.len() >= BINARY_MAX_PENDING_PACKETS {
                        let k = choose|k: int|
                            0 <= k <= BINARY_MAX_PENDING_PACKETS && k < packets.len() && (
                            #[trigger] packets[k]) == opening;
                        assert(k < earlier.len());
                        assert(earlier[k] == opening);
                    }
                }
                assert(state.processed(packet).0 =~= (BinaryView { pending: packets, ..start }));
            }
        }
    }
}

#[verifier::rlimit(60)]
proof fn lemma_symbol_kind(header: BinaryHeaderView, encoded: Seq<u8>, packet: Seq<u8>)
    requires
        header.acceptable(),
        is_symbol_of(header, encoded, packet),
    ensures
        is_symbol_packet(packet),
        !is_header_packet(packet),
{
    if exists|i: usize|
        i < header.file.data_packets && packet == #[trigger] data_packet(
            header,
            encoded,
            i as nat,
        ) {
        let i = choose|i: usize|
            i < header.file.data_packets && packet == #[trigger] data_packet(
                header,
                encoded,
                i as nat,
            );
        lemma_kinds(header, encoded, i as nat);
    } else {
        let g = choose|g: usize|
            g < header.group_count() && packet == #[trigger] parity_packet(
                header,
                encoded,
                g as nat,
            );
        lemma_kinds(header, encoded, g as nat);
    }
}

/// Seeing the header once more brings no data.
#[verifier::rlimit(60)]
proof fn lemma_header_adds_nothing(
    state: BinaryView,
    header: BinaryHeaderView,
    encoded: Seq<u8>,
    seen: Seq<Seq<u8>>,
)
    requires
        holding(state, header, encoded, seen),
    ensures
        holding(state, header, encoded, seen.push(header_bytes(header))),
{
    reveal(holding);
    let more = seen.push(header_bytes(header));
    assert forall|i: usize| #[trigger] state.chunks.contains_key(i) implies can_be_had(
        header,
        encoded,
        more,
        i,
    ) by {
        lemma_more_can_be_had(header, encoded, seen, header_bytes(header), i);
    }
    assert forall|g: usize| #[trigger] state.parity.contains_key(g) implies more.contains(
        parity_packet(header, encoded, g as nat),
    ) by {
        lemma_more_contains(
            seen,
            header_bytes(header),
            parity_packet(header, encoded, g as nat),
        );
    }
    assert forall|i: usize|
        i < header.file.data_packets && more.contains(
            #[trigger] data_packet(header, encoded, i as nat),
        ) implies state.chunks.contains_key(i) by {
        lemma_kinds(header, encoded, i as nat);
        let at = choose|at: int|
            0 <= at < more.len() && more[at] == data_packet(header, encoded, i as nat);
        assert(seen[at] == data_packet(header, encoded, i as nat));
    }
    assert forall|g: usize|
        g < header.group_count() && more.contains(
            #[trigger] parity_packet(header, encoded, g as nat),
        ) implies state.parity.contains_key(g) by {
        lemma_kinds(header, encoded, g as nat);
        let at = choose|at: int|
            0 <= at < more.len() && more[at] == parity_packet(header, encoded, g as nat);
        assert(seen[at] == parity_packet(header, encoded, g as nat));
    }
}

#[verifier::rlimit(60)]
proof fn lemma_header_is_no_symbol(
    state: BinaryView,
    header: BinaryHeaderView,
    encoded: Seq<u8>,
    seen: Seq<Seq<u8>>,
)
    requires
        on_course(state, header, encoded, seen),
    ensures
        on_course(state, header, encoded, seen.push(header_bytes(header))),
{
    reveal(on_course);
    lemma_header_adds_nothing(state, header, encoded, seen);
}

proof fn lemma_listed(header: BinaryHeaderView, encoded: Seq<u8>, packet: Seq<u8>)
    requires
        header.acceptable(),
        binary_packets(header, encoded).contains(packet),
    ensures
        packet == header_bytes(header) || is_symbol_of(header, encoded, packet),
{
    let all = binary_packets(header, encoded);
    let at = choose|at: int| 0 <= at < all.len() && all[at] == packet;
    let n = header.file.data_packets;
    if 1 <= at <= n {
        let i = (at - 1) as usize;
        assert(packet == data_packet(header, encoded, i as nat));
    } else if at > n {
        let g = (at - 1 - n) as usize;
        assert(packet == parity_packet(header, encoded, g as nat));
    }
}

#[verifier::rlimit(60)]
proof fn lemma_delivery(
    header: BinaryHeaderView,
    encoded: Seq<u8>,
    file: Seq<u8>,
    packets: Seq<Seq<u8>>,
)
    requires
        header.acceptable(),
        forall|k: int|
            0 <= k < packets.len() ==> binary_packets(header, encoded).contains(
                #[trigger] packets[k],
            ),
        exists|k: int|
            0 <= k <= BINARY_MAX_PENDING_PACKETS && k < packets.len() && (#[trigger] packets[k])
                == header_bytes(header),
        header.file.describes(encoded, file),
    ensures
        exactly_had(
            header,
            encoded,
            file,
            packets,
            binary_run(BinaryView::empty(), packets),
            binary_files(BinaryView::empty(), packets),
        ),
{
    reveal(on_course);
    reveal(holding);
    let opening = header_bytes(header);
    assert forall|k: int| 0 <= k < packets.len() implies (#[trigger] packets[k]) == opening
        || is_symbol_of(header, encoded, packets[k]) by {
        lemma_listed(header, encoded, packets[k]);
    }
    lemma_delivered(header, encoded, file, packets);
    assert(packets.contains(opening));
    let state = binary_run(BinaryView::empty(), packets);
    assert forall|i: usize| i < header.file.data_packets && #[trigger] can_be_had(
        header,
        encoded,
        packets,
        i,
    ) implies state.chunks.contains_key(i) by {
        if !state.chunks.contains_key(i) {
            assert(!packets.contains(data_packet(header, encoded, i as nat)));
            let g = group_of(i);
            assert(g < header.group_count());
            assert(packets.contains(parity_packet(header, encoded, g as nat)));
            assert(state.parity.contains_key(g));
            assert forall|other: usize|
                #![trigger state.chunks.contains_key(other)]
                other < header.file.data_packets && group_of(other) == g && other
                    != i implies state.chunks.contains_key(other) by {
                assert(packets.contains(data_packet(header, encoded, other as nat)));
            }
            assert(rebuildable(header, state.chunks, state.parity, i));
        }
    }
    if binary_enough(header, encoded, packets) {
        assert forall|i: usize| i < header.file.data_packets implies #[trigger] state.chunks.dom().contains(
            i,
        ) by {
            assert(can_be_had(header, encoded, packets, i));
        }
    }
    if all_present(state.chunks.dom(), header.file.data_packets) {
        assert forall|i: usize| i < header.file.data_packets implies #[trigger] can_be_had(
            header,
            encoded,
            packets,
            i,
        ) by {
            assert(state.chunks.dom().contains(i));
            assert(state.chunks.contains_key(i));
        }
    }
}

/// Whether a receiver shows exactly the chunks that can be had from `packets`,
/// is complete exactly if they are enough, and has then handed out the file
/// once, and otherwise nothing.
pub open spec fn exactly_had(
    header: BinaryHeaderView,
    encoded: Seq<u8>,
    file: Seq<u8>,
    packets: Seq<Seq<u8>>,
    state: BinaryView,
    files: Seq<Seq<u8>>,
) -> bool {
    &&& state.header == Some(header)
    &&& forall|i: usize|
        i < header.file.data_packets ==> (#[trigger] state.present()[i as int] <==> can_be_had(
            header,
            encoded,
            packets,
            i,
        ))
    &&& state.complete <==> binary_enough(header, encoded, packets)
    &&& files == (if binary_enough(header, encoded, packets) {
        seq![file]
    } else {
        Seq::empty()
    })
}

/// What a receiver takes into account of a series of packets whose first header
/// is at `first`: of the packets before the header, only as many as it has room
/// for.
pub open spec fn binary_remembered(packets: Seq<Seq<u8>>, first: int) -> Seq<Seq<u8>> {
    if first <= BINARY_MAX_PENDING_PACKETS {
        packets
    } else {
        packets.take(BINARY_MAX_PENDING_PACKETS as int) + packets.skip(first)
    }
}

proof fn lemma_run_append(state: BinaryView, a: Seq<Seq<u8>>, b: Seq<Seq<u8>>)
    ensures
        binary_run(state, a + b) == binary_run(binary_run(state, a), b),
        binary_files(state, a + b) == binary_files(state, a) + binary_files(
            binary_run(state, a),
            b,
        ),
    decreases b.len(),
{
    if b.len() == 0 {
        assert(a + b =~= a);
        assert(binary_files(state, a) + Seq::<Seq<u8>>::empty() =~= binary_files(state, a));
    } else {
        lemma_run_append(state, a, b.drop_last());
        assert((a + b).drop_last() =~= a + b.drop_last());
        let middle = binary_run(state, a);
        assert(binary_files(state, a + b) =~= binary_files(state, a) + binary_files(middle, b));
    }
}

/// Before the header, packets wait as long as there is room.
proof fn lemma_wait(header: BinaryHeaderView, encoded: Seq<u8>, packets: Seq<Seq<u8>>)
    requires
        header.acceptable(),
        forall|k: int|
            0 <= k < packets.len() ==> is_symbol_of(header, encoded, #[trigger] packets[k]),
    ensures
        binary_run(BinaryView::empty(), packets) == (BinaryView {
            pending: packets.take(
                if packets.len() < BINARY_MAX_PENDING_PACKETS {
                    packets.len() as int
                } else {
                    BINARY_MAX_PENDING_PACKETS as int
                },
            ),
            ..BinaryView::empty()
        }),
        binary_files(BinaryView::empty(), packets) == Seq::<Seq<u8>>::empty(),
    decreases packets.len(),
{
    let start = BinaryView::empty();
    if packets.len() == 0 {
        assert(packets.take(0) =~= start.pending);
    } else {
        let earlier = packets.drop_last();
        assert forall|k: int| 0 <= k < earlier.len() implies is_symbol_of(
            header,
            encoded,
            #[trigger] earlier[k],
        ) by {
            assert(earlier[k] == packets[k]);
        }
        lemma_wait(header, encoded, earlier);
        assert(is_symbol_of(header, encoded, packets[packets.len() - 1]));
        lemma_symbol_kind(header, encoded, packets.last());
        let state = binary_run(start, earlier);
        assert(state.processed(packets.last()) == (
            state.waiting(packets.last()),
            None::<Seq<u8>>,
        ));
        let room = if packets.len() < BINARY_MAX_PENDING_PACKETS {
            packets.len() as int
        } else {
            BINARY_MAX_PENDING_PACKETS as int
        };
        assert(state.waiting(packets.last()).pending =~= packets.take(room));
    }
}

/// Whatever packets of a transfer arrive, in whatever order and however often, a
/// fresh receiver shows exactly the chunks that can be had from those that it
/// takes into account. Once they are enough it has handed out the file, once;
/// until then it hands out nothing. The header may come late: the packets before
/// it count as far as the receiver has room for them.
#[verifier::rlimit(60)]
pub proof fn law_binary_delivery(
    header: BinaryHeaderView,
    encoded: Seq<u8>,
    file: Seq<u8>,
    packets: Seq<Seq<u8>>,
    first: int,
)
    requires
        header.acceptable(),
        forall|k: int|
            0 <= k < packets.len() ==> binary_packets(header, encoded).contains(
                #[trigger] packets[k],
            ),
        0 <= first < packets.len(),
        packets[first] == header_bytes(header),
        forall|k: int| 0 <= k < first ==> #[trigger] packets[k] != header_bytes(header),
    ensures
        header.file.describes(encoded, file) ==> exactly_had(
            header,
            encoded,
            file,
            binary_remembered(packets, first),
            binary_run(BinaryView::empty(), packets),
            binary_files(BinaryView::empty(), packets),
        ),
{
    if header.file.describes(encoded, file) {
        let start = BinaryView::empty();
        let opening = header_bytes(header);
        let kept = binary_remembered(packets, first);
        if first <= BINARY_MAX_PENDING_PACKETS {
            lemma_delivery(header, encoded, file, packets);
        } else {
            let waiting = packets.take(first);
            let room = packets.take(BINARY_MAX_PENDING_PACKETS as int);
            let rest = packets.skip(first);
            assert(packets =~= waiting + rest);
            assert forall|k: int| 0 <= k < first implies is_symbol_of(
                header,
                encoded,
                #[trigger] packets[k],
            ) by {
                lemma_listed(header, encoded, packets[k]);
            }
            assert forall|k: int| 0 <= k < waiting.len() implies is_symbol_of(
                header,
                encoded,
                #[trigger] waiting[k],
            ) by {
                assert(waiting[k] == packets[k]);
            }
            assert forall|k: int| 0 <= k < room.len() implies is_symbol_of(
                header,
                encoded,
                #[trigger] room[k],
            ) by {
                assert(room[k] == packets[k]);
            }
            lemma_wait(header, encoded, waiting);
            lemma_wait(header, encoded, room);
            assert(waiting.take(BINARY_MAX_PENDING_PACKETS as int) =~= room);
            assert(room.take(BINARY_MAX_PENDING_PACKETS as int) =~= room);
            lemma_run_append(start, waiting, rest);
            lemma_run_append(start, room, rest);
            assert(kept == room + rest);
            assert forall|k: int| 0 <= k < kept.len() implies binary_packets(
                header,
                encoded,
            ).contains(#[trigger] kept[k]) by {
                if k < room.len() {
                    assert(kept[k] == packets[k]);
                } else {
                    assert(kept[k] == packets[first + k - room.len()]);
                }
            }
            assert(kept[BINARY_MAX_PENDING_PACKETS as int] == opening);
            lemma_delivery(header, encoded, file, kept);
        }
    }
}

/// A file is handed out only if it has the length that the header announced, and if
/// the hash and the digest of the name followed by the file are those that it
/// announced.
pub proof fn law_binary_files_are_genuine(state: BinaryView, packet: Seq<u8>)
    requires
        state.wf(),
    ensures
        state.processed(packet).1 matches Some(file) ==> {
            let after = state.processed(packet).0;
            &&& after.complete
            &&& after.header matches Some(header) && {
                &&& header.file.genuine(file)
                &&& file.len() == header.file.file_size
                &&& fnv1a(encode_utf8(header.file.filename) + file) == header.file.checksum
                &&& sha256(encode_utf8(header.file.filename) + file) == header.file.digest
            }
        },
{
    if let Some(header) = parsed_header(packet) {
        lemma_replayed_genuine(BinaryView::begun(header), header, state.pending);
    }
}

#[verifier::rlimit(60)]
proof fn lemma_replayed_genuine(
    state: BinaryView,
    header: BinaryHeaderView,
    list: Seq<Seq<u8>>,
)
    requires
        state.header == Some(header),
    ensures
        state.replayed(list).0.header == Some(header),
        state.replayed(list).1 matches Some(file) ==> state.replayed(list).0.complete
            && header.file.genuine(file),
    decreases list.len(),
{
    if list.len() > 0 {
        lemma_replayed_genuine(state, header, list.drop_last());
    }
}

/// Once the file is handed out, nothing more is, as long as the transfer stays
/// the same.
#[verifier::rlimit(60)]
pub proof fn law_binary_complete_is_silent(state: BinaryView, packet: Seq<u8>)
    requires
        state.wf(),
        state.complete,
        parsed_header(packet) matches Some(header) ==> header.file.checksum
            == state.header->0.file.checksum,
    ensures
        state.processed(packet).1 is None,
        state.processed(packet).0.complete,
        state.processed(packet).0.header == state.header,
{
}

/// A packet of another transfer, or one that does not fit the header, changes
/// nothing once a header is there.
pub proof fn law_binary_foreign_packets_change_nothing(state: BinaryView, packet: Seq<u8>)
    requires
        state.wf(),
        state.header is Some,
        !is_header_packet(packet),
        is_symbol_packet(packet) ==> u64_at(packet, 4) != state.header->0.file.checksum,
    ensures
        state.processed(packet) == (state, None::<Seq<u8>>),
{
}

/// A receiver on course gains nothing from a packet that it has seen.
#[verifier::rlimit(60)]
proof fn lemma_again(
    state: BinaryView,
    header: BinaryHeaderView,
    encoded: Seq<u8>,
    seen: Seq<Seq<u8>>,
    packet: Seq<u8>,
)
    requires
        on_course(state, header, encoded, seen),
        header.file.compressed_size == encoded.len(),
        is_symbol_of(header, encoded, packet),
        seen.contains(packet),
    ensures
        state.accepted(packet) == (state, None::<Seq<u8>>),
{
    reveal(on_course);
    reveal(holding);
    lemma_stored(state, header, encoded, packet);
    lemma_chunk_count(encoded.len(), header.file.chunk_size);
    let next = state.stored(packet)->0;
    if exists|i: usize|
        i < header.file.data_packets && packet == #[trigger] data_packet(
            header,
            encoded,
            i as nat,
        ) {
        let i = choose|i: usize|
            i < header.file.data_packets && packet == #[trigger] data_packet(
                header,
                encoded,
                i as nat,
            );
        assert(state.chunks.contains_key(i));
        assert(next.chunks =~= state.chunks);
        assert(next =~= state);
    } else {
        let g = choose|g: usize|
            g < header.group_count() && packet == #[trigger] parity_packet(
                header,
                encoded,
                g as nat,
            );
        assert(state.parity.contains_key(g));
        assert(next =~= state);
    }
    assert(with_rebuilt(header, state.chunks, state.parity) =~= state.chunks);
    assert(state.repaired() =~= state);
}

/// A packet that came before changes nothing when it comes again.
pub proof fn law_binary_duplicates_change_nothing(
    header: BinaryHeaderView,
    encoded: Seq<u8>,
    file: Seq<u8>,
    packets: Seq<Seq<u8>>,
    again: int,
)
    requires
        header.acceptable(),
        forall|k: int|
            0 <= k < packets.len() ==> binary_packets(header, encoded).contains(
                #[trigger] packets[k],
            ),
        exists|k: int|
            0 <= k <= BINARY_MAX_PENDING_PACKETS && k < packets.len() && (#[trigger] packets[k])
                == header_bytes(header),
        0 <= again < packets.len(),
    ensures
        header.file.describes(encoded, file) ==> binary_run(
            BinaryView::empty(),
            packets.push(packets[again]),
        ) == binary_run(BinaryView::empty(), packets),
{
    if header.file.describes(encoded, file) {
        let opening = header_bytes(header);
        assert forall|k: int| 0 <= k < packets.len() implies (#[trigger] packets[k]) == opening
            || is_symbol_of(header, encoded, packets[k]) by {
            lemma_listed(header, encoded, packets[k]);
        }
        lemma_delivered(header, encoded, file, packets);
        let state = binary_run(BinaryView::empty(), packets);
        let packet = packets[again];
        assert(packets.push(packet).drop_last() =~= packets);
        assert(packets.contains(opening));
        law_binary_header_round_trip(header);
        lemma_quiet(state, header, encoded, packets);
        if packet == opening {
            assert(state.processed(packet).0 == state);
        } else {
            lemma_symbol_kind(header, encoded, packet);
            assert(packets.contains(packet));
            lemma_again(state, header, encoded, packets, packet);
            assert(state.processed(packet) == state.accepted(packet));
        }
    }
}

/// A data or parity packet that comes twice in a row, once a header is there,
/// has no effect the second time, whatever it carries.
pub proof fn law_binary_repeats_change_nothing(state: BinaryView, packet: Seq<u8>)
    requires
        state.wf(),
        state.header is Some,
        !is_header_packet(packet),
    ensures
        state.processed(packet).0.processed(packet) == (
            state.processed(packet).0,
            None::<Seq<u8>>,
        ),
{
    let header = state.header->0;
    lemma_stored_wf(state, packet);
    if let Some(next) = state.stored(packet) {
        lemma_repaired_wf(next);
        law_one_repair_is_enough(next, header);
        let whole = next.repaired();
        let after = whole.finished().0;
        let again = after.stored(packet)->0;
        assert(again.chunks =~= after.chunks);
        assert(again =~= after);
        assert(with_rebuilt(header, after.chunks, after.parity) =~= after.chunks);
        assert(after.repaired() =~= after);
    }
}

/// Two chunks lost from one group stay missing, so that they are asked for.
pub proof fn law_two_losses_in_a_group_stay(
    state: BinaryView,
    header: BinaryHeaderView,
    a: usize,
    b: usize,
)
    requires
        state.wf(),
        state.header == Some(header),
        a < header.file.data_packets,
        b < header.file.data_packets,
        a != b,
        group_of(a) == group_of(b),
        !state.chunks.contains_key(a),
        !state.chunks.contains_key(b),
    ensures
        !state.repaired().chunks.contains_key(a),
        !state.repaired().chunks.contains_key(b),
        !state.repaired().present()[a as int],
        !state.repaired().present()[b as int],
{
}

/// A chunk lost alone from its group is rebuilt once the group's parity is there.
pub proof fn law_one_loss_in_a_group_is_rebuilt(
    state: BinaryView,
    header: BinaryHeaderView,
    lost: usize,
)
    requires
        state.wf(),
        state.header == Some(header),
        header.fec_group_size > 0,
        lost < header.file.data_packets,
        state.parity.contains_key(group_of(lost)),
        forall|other: usize|
            other < header.file.data_packets && group_of(other) == group_of(lost) && other != lost
                ==> #[trigger] state.chunks.contains_key(other),
    ensures
        state.repaired().chunks.contains_key(lost),
        state.repaired().present()[lost as int],
{
    if !state.chunks.contains_key(lost) {
        assert(rebuildable(header, state.chunks, state.parity, lost));
        assert(group_of(lost) < header.group_count());
    }
}

#[verifier::rlimit(60)]
proof fn lemma_accepted_keeps(state: BinaryView, packet: Seq<u8>)
    requires
        state.wf(),
    ensures
        state.accepted(packet).0.wf(),
        state.accepted(packet).0.header == state.header,
        state.chunks.dom().subset_of(state.accepted(packet).0.chunks.dom()),
        state.parity.dom().subset_of(state.accepted(packet).0.parity.dom()),
{
    lemma_stored_wf(state, packet);
    if let Some(next) = state.stored(packet) {
        lemma_repaired_wf(next);
    }
}

#[verifier::rlimit(60)]
proof fn lemma_replayed_keeps(state: BinaryView, list: Seq<Seq<u8>>)
    requires
        state.wf(),
    ensures
        state.replayed(list).0.wf(),
        state.replayed(list).0.header == state.header,
    decreases list.len(),
{
    if list.len() > 0 {
        lemma_replayed_keeps(state, list.drop_last());
        lemma_accepted_keeps(state.replayed(list.drop_last()).0, list.last());
    }
}

/// Whatever packet comes, a receiver stays well-formed.
pub proof fn law_binary_stays_well_formed(state: BinaryView, packet: Seq<u8>)
    requires
        state.wf(),
    ensures
        state.processed(packet).0.wf(),
{
    lemma_accepted_keeps(state, packet);
    if let Some(header) = parsed_header(packet) {
        lemma_replayed_keeps(BinaryView::begun(header), state.pending);
    }
}

/// Nothing that a receiver holds is lost, unless another transfer is announced.
pub proof fn law_binary_nothing_is_forgotten(state: BinaryView, packet: Seq<u8>)
    requires
        state.wf(),
        parsed_header(packet) matches Some(header) ==> state.header is Some
            && header.file.checksum == state.header->0.file.checksum,
    ensures
        state.chunks.dom().subset_of(state.processed(packet).0.chunks.dom()),
        state.parity.dom().subset_of(state.processed(packet).0.parity.dom()),
        state.header is Some ==> state.processed(packet).0.header == state.header,
{
    lemma_accepted_keeps(state, packet);
}

/// A genuine data packet takes the place of a corrupt copy: where all other chunks
/// are there and genuine, it brings out the file, without a reset.
pub proof fn law_binary_genuine_packet_replaces_a_corrupt_copy(
    state: BinaryView,
    header: BinaryHeaderView,
    encoded: Seq<u8>,
    file: Seq<u8>,
    index: usize,
)
    requires
        state.wf(),
        state.header == Some(header),
        !state.complete,
        index < header.file.data_packets,
        forall|i: usize|
            i < header.file.data_packets && i != index ==> {
                &&& #[trigger] state.chunks.contains_key(i)
                &&& state.chunks[i] == source_chunk(encoded, header.file.chunk_size, i as nat)
            },
    ensures
        header.file.describes(encoded, file) ==> ({
            let (after, handed_out) = state.processed(
                data_packet(header, encoded, index as nat),
            );
            &&& handed_out == Some(file)
            &&& after.complete
        }),
{
    if header.file.describes(encoded, file) {
        let packet = data_packet(header, encoded, index as nat);
        lemma_kinds(header, encoded, index as nat);
        lemma_stored(state, header, encoded, packet);
        let next = state.stored(packet)->0;
        assert forall|i: usize| i < header.file.data_packets implies #[trigger] next.chunks.contains_key(
            i,
        ) && next.chunks[i] == source_chunk(encoded, header.file.chunk_size, i as nat) by {
            if i != index {
                assert(state.chunks.contains_key(i));
            }
        }
        assert(with_rebuilt(header, next.chunks, next.parity) =~= next.chunks);
        let whole = next.repaired();
        assert forall|i: usize| i < header.file.data_packets implies #[trigger] whole.chunks[i]
            == source_chunk(encoded, header.file.chunk_size, i as nat) by {
            assert(next.chunks.contains_key(i));
        }
        assert forall|i: usize| i < header.file.data_packets implies #[trigger] whole.chunks.dom().contains(
            i,
        ) by {
            assert(next.chunks.contains_key(i));
        }
        lemma_all_genuine(whole, header, encoded, file);
    }
}

#[verifier::rlimit(60)]
proof fn lemma_replayed_holding(
    header: BinaryHeaderView,
    encoded: Seq<u8>,
    list: Seq<Seq<u8>>,
)
    requires
        header.acceptable(),
        header.file.compressed_size == encoded.len(),
        forall|k: int| 0 <= k < list.len() ==> is_symbol_of(header, encoded, #[trigger] list[k]),
    ensures
        holding(BinaryView::begun(header).replayed(list).0, header, encoded, list),
        BinaryView::begun(header).replayed(list).0.complete ==> BinaryView::begun(header).replayed(
            list,
        ).1 is Some,
    decreases list.len(),
{
    let fresh = BinaryView::begun(header);
    if list.len() == 0 {
        reveal(holding);
    } else {
        let earlier = list.drop_last();
        assert forall|k: int| 0 <= k < earlier.len() implies is_symbol_of(
            header,
            encoded,
            #[trigger] earlier[k],
        ) by {
            assert(earlier[k] == list[k]);
        }
        lemma_replayed_holding(header, encoded, earlier);
        assert(is_symbol_of(header, encoded, list[list.len() - 1]));
        lemma_accepted_holding(
            fresh.replayed(earlier).0,
            header,
            encoded,
            earlier,
            list.last(),
        );
        assert(earlier.push(list.last()) =~= list);
    }
}

/// What a receiver holds after some packets of a transfer whose encoded file need
/// not be the one that the header describes.
#[verifier::rlimit(60)]
proof fn lemma_run_holding(header: BinaryHeaderView, encoded: Seq<u8>, packets: Seq<Seq<u8>>)
    requires
        header.acceptable(),
        header.file.compressed_size == encoded.len(),
        forall|k: int|
            0 <= k < packets.len() ==> (#[trigger] packets[k]) == header_bytes(header)
                || is_symbol_of(header, encoded, packets[k]),
        packets.len() <= BINARY_MAX_PENDING_PACKETS || exists|k: int|
            0 <= k <= BINARY_MAX_PENDING_PACKETS && k < packets.len() && (#[trigger] packets[k])
                == header_bytes(header),
    ensures
        packets.contains(header_bytes(header)) ==> {
            let state = binary_run(BinaryView::empty(), packets);
            &&& holding(state, header, encoded, packets)
            &&& state.complete ==> binary_files(BinaryView::empty(), packets).len() > 0
        },
    decreases packets.len(),
{
    let start = BinaryView::empty();
    let opening = header_bytes(header);
    if packets.len() > 0 {
        let earlier = packets.drop_last();
        let packet = packets.last();
        assert(packet == packets[packets.len() - 1]);
        assert(earlier.push(packet) =~= packets);
        assert forall|k: int| 0 <= k < earlier.len() implies (#[trigger] earlier[k]) == opening
            || is_symbol_of(header, encoded, earlier[k]) by {
            assert(earlier[k] == packets[k]);
        }
        if earlier.contains(opening) {
            if earlier.len() > BINARY_MAX_PENDING_PACKETS {
                let k = choose|k: int|
                    0 <= k <= BINARY_MAX_PENDING_PACKETS && k < packets.len() && (
                    #[trigger] packets[k]) == opening;
                assert(earlier[k] == opening);
            }
            lemma_run_holding(header, encoded, earlier);
            let state = binary_run(start, earlier);
            lemma_held(state, header, encoded, earlier);
            law_binary_header_round_trip(header);
            lemma_kinds(header, encoded, 0);
            if packet == opening {
                lemma_header_adds_nothing(state, header, encoded, earlier);
                lemma_finished_holding(state, header, encoded, packets);
            } else {
                lemma_symbol_kind(header, encoded, packet);
                lemma_accepted_holding(state, header, encoded, earlier, packet);
            }
        } else if packet == opening {
            assert forall|k: int| 0 <= k < earlier.len() implies is_symbol_of(
                header,
                encoded,
                #[trigger] earlier[k],
            ) by {
                assert(earlier.contains(earlier[k]));
            }
            assert(earlier.len() <= BINARY_MAX_PENDING_PACKETS) by {
                if earlier.len() > BINARY_MAX_PENDING_PACKETS {
                    let k = choose|k: int|
                        0 <= k <= BINARY_MAX_PENDING_PACKETS && k < packets.len() && (
                        #[trigger] packets[k]) == opening;
                    assert(earlier[k] == opening);
                    assert(earlier.contains(opening));
                }
            }
            lemma_wait(header, encoded, earlier);
            assert(earlier.take(earlier.len() as int) =~= earlier);
            law_binary_header_round_trip(header);
            lemma_kinds(header, encoded, 0);
            lemma_replayed_holding(header, encoded, earlier);
            let after = BinaryView::begun(header).replayed(earlier).0;
            lemma_header_adds_nothing(after, header, encoded, earlier);
            lemma_finished_holding(after, header, encoded, packets);
        } else {
            assert(!packets.contains(opening)) by {
                if packets.contains(opening) {
                    let k = choose|k: int| 0 <= k < packets.len() && packets[k] == opening;
                    assert(earlier[k] == opening);
                }
            }
        }
    }
}

proof fn lemma_held(
    state: BinaryView,
    header: BinaryHeaderView,
    encoded: Seq<u8>,
    seen: Seq<Seq<u8>>,
)
    requires
        holding(state, header, encoded, seen),
    ensures
        state.wf(),
        state.header == Some(header),
        forall|i: usize| #[trigger]
            state.chunks.contains_key(i) ==> i < header.file.data_packets && state.chunks[i]
                == source_chunks(encoded, header.file.chunk_size)[i as int],
        forall|i: usize|
            i < header.file.data_packets && seen.contains(
                #[trigger] data_packet(header, encoded, i as nat),
            ) ==> state.chunks.contains_key(i),
{
    reveal(holding);
}

proof fn lemma_finished_holding(
    state: BinaryView,
    header: BinaryHeaderView,
    encoded: Seq<u8>,
    seen: Seq<Seq<u8>>,
)
    requires
        holding(state, header, encoded, seen),
    ensures
        holding(state.finished().0, header, encoded, seen),
        state.finished().0.complete ==> state.complete || state.finished().1 is Some,
{
    reveal(holding);
}

/// A failed assembly can be mended: where one chunk arrived corrupt and no file
/// came out, the genuine data packet brings out the file, without a reset.
/// `altered` is the encoded file with that chunk corrupt.
pub proof fn law_binary_failed_assembly_can_be_mended(
    header: BinaryHeaderView,
    encoded: Seq<u8>,
    altered: Seq<u8>,
    file: Seq<u8>,
    packets: Seq<Seq<u8>>,
    index: usize,
)
    requires
        header.acceptable(),
        header.fec_group_size == 0,
        altered.len() == encoded.len(),
        index < header.file.data_packets,
        forall|i: usize|
            i < header.file.data_packets && i != index ==> #[trigger] piece(
                altered,
                header.file.chunk_size,
                i as nat,
            ) == piece(encoded, header.file.chunk_size, i as nat),
        forall|k: int|
            0 <= k < packets.len() ==> binary_packets(header, altered).contains(
                #[trigger] packets[k],
            ),
        exists|k: int|
            0 <= k <= BINARY_MAX_PENDING_PACKETS && k < packets.len() && (#[trigger] packets[k])
                == header_bytes(header),
        forall|i: usize|
            i < header.file.data_packets ==> packets.contains(
                #[trigger] data_packet(header, altered, i as nat),
            ),
    ensures
        header.file.describes(encoded, file) && binary_files(BinaryView::empty(), packets).len()
            == 0 ==> binary_run(BinaryView::empty(), packets).processed(
            data_packet(header, encoded, index as nat),
        ).1 == Some(file),
{
    if header.file.describes(encoded, file) && binary_files(BinaryView::empty(), packets).len()
        == 0 {
        let opening = header_bytes(header);
        let chunk = header.file.chunk_size;
        assert forall|k: int| 0 <= k < packets.len() implies (#[trigger] packets[k]) == opening
            || is_symbol_of(header, altered, packets[k]) by {
            lemma_listed(header, altered, packets[k]);
        }
        lemma_run_holding(header, altered, packets);
        assert(packets.contains(opening));
        let state = binary_run(BinaryView::empty(), packets);
        lemma_held(state, header, altered, packets);
        assert forall|i: usize| i < header.file.data_packets && i != index implies {
            &&& #[trigger] state.chunks.contains_key(i)
            &&& state.chunks[i] == source_chunk(encoded, chunk, i as nat)
        } by {
            assert(packets.contains(data_packet(header, altered, i as nat)));
            assert(piece(altered, chunk, i as nat) == piece(encoded, chunk, i as nat));
            assert(state.chunks[i] == source_chunks(altered, chunk)[i as int]);
        }
        law_binary_genuine_packet_replaces_a_corrupt_copy(state, header, encoded, file, index);
    }
}

// ---------------------------------------------------------------------------
// Single packets

/// Whether a packet is a data packet of a transfer: it begins as one, names the
/// transfer and one of its chunks, and is as long as that chunk.
pub open spec fn fits_as_data(header: BinaryHeaderView, packet: Seq<u8>) -> bool {
    let index = read_be(packet.subrange(12, 16));
    &&& packet.len() >= 16
    &&& packet.take(4) == seq![0x54u8, 0x4eu8, 0x32u8, 1u8]
    &&& read_be(packet.subrange(4, 12)) == header.file.checksum
    &&& index < header.file.data_packets
    &&& packet.len() == 16 + border(
        (index + 1) as nat,
        header.file.chunk_size,
        header.file.compressed_size,
    ) - border(index as nat, header.file.chunk_size, header.file.compressed_size)
}

/// Whether a packet is a parity packet of a transfer: error correction is on, it begins
/// as one, names the transfer and one of its groups of eight, and is as long as a chunk.
pub open spec fn fits_as_parity(header: BinaryHeaderView, packet: Seq<u8>) -> bool {
    &&& header.fec_group_size == 8
    &&& packet.len() == 16 + header.file.chunk_size
    &&& packet.take(4) == seq![0x54u8, 0x4eu8, 0x32u8, 2u8]
    &&& read_be(packet.subrange(4, 12)) == header.file.checksum
    &&& read_be(packet.subrange(12, 16)) * 8 < header.file.data_packets
}

/// What the receiver's own tests on a packet come to.
#[verifier::rlimit(60)]
proof fn lemma_fits(state: BinaryView, header: BinaryHeaderView, packet: Seq<u8>)
    requires
        state.wf(),
        state.header == Some(header),
    ensures
        state.stored(packet) is Some <==> fits_as_data(header, packet) || fits_as_parity(
            header,
            packet,
        ),
        fits_as_data(header, packet) ==> is_symbol_packet(packet) && packet[3] == 1 && u32_at(
            packet,
            12,
        ) == read_be(packet.subrange(12, 16)),
        fits_as_parity(header, packet) ==> is_symbol_packet(packet) && packet[3] == 2 && u32_at(
            packet,
            12,
        ) == read_be(packet.subrange(12, 16)),
        is_symbol_packet(packet) ==> !is_header_packet(packet),
{
    if packet.len() >= 4 {
        lemma_first_four(packet, 0x54, 0x4e, 0x32, 1);
        lemma_first_four(packet, 0x54, 0x4e, 0x32, 2);
    }
    if packet.len() >= 16 {
        law_numbers_are_read_from_bytes(packet, 4);
        law_numbers_are_read_from_bytes(packet, 12);
        let index = u32_at(packet, 12);
        let chunk = header.file.chunk_size;
        assert((index + 1) * chunk == index * chunk + chunk) by (nonlinear_arith);
        assert(packet.skip(16).len() == packet.len() - 16);
        if header.fec_group_size > 0 {
            let total = header.file.data_packets;
            assert(header.group_count() == (total + 7) as nat / 8);
            assert(index < (total + 7) as nat / 8 <==> index * 8 < total);
        }
    }
}

/// A fresh receiver knows nothing.
pub proof fn law_binary_fresh_receiver_is_blank()
    ensures
        BinaryView::empty() == (BinaryView {
            header: None,
            chunks: Map::empty(),
            parity: Map::empty(),
            pending: Seq::empty(),
            recovered: 0,
            complete: false,
        }),
        BinaryView::empty().wf(),
{
}

/// A packet that is no header, and that fits neither as data nor as parity, changes
/// nothing once a header is there.
pub proof fn law_binary_unfit_packets_change_nothing(
    state: BinaryView,
    header: BinaryHeaderView,
    packet: Seq<u8>,
)
    requires
        state.wf(),
        state.header == Some(header),
        packet.len() < 4 || packet.take(4) != seq![0x54u8, 0x4eu8, 0x32u8, 0u8],
        !fits_as_data(header, packet),
        !fits_as_parity(header, packet),
    ensures
        state.processed(packet) == (state, None::<Seq<u8>>),
{
    lemma_fits(state, header, packet);
    if packet.len() >= 4 {
        lemma_first_four(packet, 0x54, 0x4e, 0x32, 0);
    }
}

/// The exclusive or of the bytes at place `at` of the chunks from `from` up to `to`.
pub open spec fn held_column(chunks: Map<usize, Seq<u8>>, from: nat, to: nat, at: int) -> u8
    decreases to,
{
    if to <= from {
        0
    } else {
        held_column(chunks, from, (to - 1) as nat, at) ^ chunks[(to - 1) as usize][at]
    }
}

/// Whether a missing chunk can be rebuilt: error correction is on, the parity of its
/// group of eight came, and all others of the group are there.
pub open spec fn alone(
    header: BinaryHeaderView,
    held: Map<usize, Seq<u8>>,
    parity: Map<usize, Seq<u8>>,
    i: usize,
) -> bool {
    &&& header.fec_group_size == 8
    &&& i < header.file.data_packets
    &&& parity.contains_key(i / 8)
    &&& forall|other: usize|
        other < header.file.data_packets && other / 8 == i / 8 && other != i
            ==> #[trigger] held.contains_key(other)
}

/// Whether the bytes at one place of the chunks of a group add up to its parity.
pub open spec fn adds_up(
    header: BinaryHeaderView,
    chunks: Map<usize, Seq<u8>>,
    parity: Map<usize, Seq<u8>>,
    i: usize,
    at: int,
) -> bool {
    held_column(
        chunks,
        (i / 8 * 8) as nat,
        least(i / 8 * 8 + 8, header.file.data_packets as int) as nat,
        at,
    ) == parity[i / 8][at]
}

/// Whether `after` is what error correction makes of the chunks held: they stay as they
/// are; of the missing ones exactly those are rebuilt that are alone in their group of
/// eight and whose parity came; and the bytes of a group that was rebuilt add up to its
/// parity.
pub open spec fn repairs(
    header: BinaryHeaderView,
    held: Map<usize, Seq<u8>>,
    parity: Map<usize, Seq<u8>>,
    after: Map<usize, Seq<u8>>,
) -> bool {
    &&& forall|i: usize| #[trigger]
        held.contains_key(i) ==> after.contains_key(i) && after[i] == held[i]
    &&& forall|i: usize|
        !held.contains_key(i) ==> (#[trigger] after.contains_key(i) <==> alone(
            header,
            held,
            parity,
            i,
        ))
    &&& forall|i: usize| #[trigger]
        after.contains_key(i) && !held.contains_key(i) ==> after[i].len() == header.file.chunk_size
    &&& forall|i: usize, at: int|
        after.contains_key(i) && !held.contains_key(i) && 0 <= at < header.file.chunk_size
            ==> #[trigger] adds_up(header, after, parity, i, at)
}

/// Mixing in all chunks but one leaves what is missing to the sum of all.
proof fn lemma_mixed_column(
    payload: Seq<u8>,
    held: Map<usize, Seq<u8>>,
    after: Map<usize, Seq<u8>>,
    start: nat,
    end: nat,
    except: nat,
    at: int,
)
    requires
        end <= usize::MAX,
        0 <= at < payload.len(),
        forall|j: usize|
            start <= j < end && j != except ==> (#[trigger] held[j]).len() == payload.len()
                && after[j] == held[j],
    ensures
        mixed_in(payload, held, start, end, except).len() == payload.len(),
        mixed_in(payload, held, start, end, except)[at] == payload[at] ^ held_column(
            after,
            start,
            end,
            at,
        ) ^ (if start <= except < end {
            after[except as usize][at]
        } else {
            0
        }),
    decreases end,
{
    let p = payload[at];
    if end <= start {
        assert(p ^ 0u8 ^ 0u8 == p) by (bit_vector);
    } else {
        let last = (end - 1) as nat;
        lemma_mixed_column(payload, held, after, start, last, except, at);
        let c = held_column(after, start, last, at);
        let x = after[last as usize][at];
        let e = if start <= except < last {
            after[except as usize][at]
        } else {
            0
        };
        assert((p ^ c ^ e) ^ x == p ^ (c ^ x) ^ e && p ^ c ^ 0u8 == p ^ (c ^ x) ^ x)
            by (bit_vector);
        if last != except {
            assert(held[last as usize].len() == payload.len());
        }
    }
}

/// The receiver's error correction does what it is for.
#[verifier::rlimit(60)]
pub proof fn law_binary_repair_completes_the_parity(state: BinaryView, header: BinaryHeaderView)
    requires
        state.wf(),
        state.header == Some(header),
    ensures
        repairs(header, state.chunks, state.parity, state.repaired().chunks),
        state.repaired().parity == state.parity,
        state.repaired().header == state.header,
        state.repaired().recovered == state.recovered + state.repaired().chunks.dom().len()
            - state.chunks.dom().len(),
{
    let held = state.chunks;
    let after = state.repaired().chunks;
    let total = header.file.data_packets;
    lemma_repaired_wf(state);
    assert forall|i: usize| !held.contains_key(i) implies (#[trigger] after.contains_key(i)
        <==> alone(header, held, state.parity, i)) by {
        assert(group_of(i) == i / 8);
        if alone(header, held, state.parity, i) {
            assert(i / 8 < header.group_count());
            assert(rebuildable(header, held, state.parity, i));
        }
        if after.contains_key(i) {
            assert(rebuildable(header, held, state.parity, i));
        }
    }
    assert forall|i: usize, at: int|
        after.contains_key(i) && !held.contains_key(i) && 0 <= at
            < header.file.chunk_size implies #[trigger] adds_up(
        header,
        after,
        state.parity,
        i,
        at,
    ) by {
        let group = i / 8;
        let payload = state.parity[group];
        let start = (group * 8) as nat;
        let end = least(group * 8 + 8, total as int) as nat;
        assert(rebuildable(header, held, state.parity, i));
        assert(state.parity.contains_key(group));
        let size = header.fec_group_size;
        assert(group as nat * size == group * 8 && (group as nat + 1) * size == group * 8 + 8)
            by (nonlinear_arith)
            requires
                size == 8,
        ;
        assert(header.group_end(group as nat) == end);
        assert forall|j: usize| start <= j < end && j != i implies (#[trigger] held[j]).len()
            == payload.len() && after[j] == held[j] by {
            assert(group_of(j) == group_of(i));
            assert(held.contains_key(j));
        }
        lemma_mixed_column(payload, held, after, start, end, i as nat, at);
        assert(after[i] == mixed_in(payload, held, start, end, i as nat));
        let p = payload[at];
        let c = held_column(after, start, end, at);
        let v = after[i][at];
        assert(start <= i < end);
        assert(v == p ^ c ^ v);
        assert(v == p ^ c ^ v ==> c == p) by (bit_vector);
    }
}

/// A data packet that fits is kept under its index, in place of an earlier copy: the
/// bytes that it carries, and zeros after them. Then error correction goes as far as it
/// can; what it rebuilds counts as recovered.
#[verifier::rlimit(60)]
pub proof fn law_binary_data_is_taken_in(
    state: BinaryView,
    header: BinaryHeaderView,
    packet: Seq<u8>,
)
    requires
        state.wf(),
        state.header == Some(header),
        fits_as_data(header, packet),
    ensures
        ({
            let index = read_be(packet.subrange(12, 16)) as usize;
            let after = state.processed(packet).0;
            let chunk = Seq::new(header.file.chunk_size, |at: int| byte_at(packet, 16 + at));
            let held = state.chunks.insert(index, chunk);
            &&& repairs(header, held, state.parity, after.chunks)
            &&& after.parity == state.parity
            &&& after.recovered == state.recovered + after.chunks.dom().len() - held.dom().len()
            &&& after.header == state.header
        }),
{
    lemma_fits(state, header, packet);
    lemma_stored_wf(state, packet);
    let index = u32_at(packet, 12) as usize;
    let next = state.stored(packet)->0;
    let chunk = Seq::new(header.file.chunk_size, |at: int| byte_at(packet, 16 + at));
    assert(padded(packet.skip(16), header.file.chunk_size) =~= chunk);
    assert(next.chunks == state.chunks.insert(index, chunk));
    law_binary_repair_completes_the_parity(next, header);
}

/// A parity packet that fits is kept under its group, unless one is there. Then error
/// correction goes as far as it can; what it rebuilds counts as recovered.
#[verifier::rlimit(60)]
pub proof fn law_binary_parity_is_taken_in(
    state: BinaryView,
    header: BinaryHeaderView,
    packet: Seq<u8>,
)
    requires
        state.wf(),
        state.header == Some(header),
        fits_as_parity(header, packet),
    ensures
        ({
            let group = read_be(packet.subrange(12, 16)) as usize;
            let after = state.processed(packet).0;
            &&& after.parity == (if state.parity.contains_key(group) {
                state.parity
            } else {
                state.parity.insert(group, packet.skip(16))
            })
            &&& repairs(header, state.chunks, after.parity, after.chunks)
            &&& after.recovered == state.recovered + after.chunks.dom().len()
                - state.chunks.dom().len()
            &&& after.header == state.header
        }),
{
    lemma_fits(state, header, packet);
    lemma_stored_wf(state, packet);
    assert(!fits_as_data(header, packet));
    let next = state.stored(packet)->0;
    law_binary_repair_completes_the_parity(next, header);
}

/// Of a header only what it says counts: one that is read as a header does what that
/// header does in its usual form, whatever follows its last field.
pub proof fn law_binary_header_does_what_it_says(
    state: BinaryView,
    packet: Seq<u8>,
    header: BinaryHeaderView,
)
    requires
        parsed_header(packet) == Some(header),
    ensures
        header.acceptable(),
        state.processed(packet) == state.processed(header_bytes(header)),
{
    law_binary_header_round_trip(header);
}

/// A header that cannot be read changes nothing.
pub proof fn law_binary_unreadable_headers_change_nothing(state: BinaryView, packet: Seq<u8>)
    requires
        packet.len() >= 4,
        packet.take(4) == seq![0x54u8, 0x4eu8, 0x32u8, 0u8],
        parsed_header(packet) is None,
    ensures
        state.processed(packet) == (state, None::<Seq<u8>>),
{
    lemma_first_four(packet, 0x54, 0x4e, 0x32, 0);
}

/// A packet that fits brings the file exactly if it was not brought before, all chunks
/// are there then, and what they hold together restores it.
pub proof fn law_binary_packet_brings_what_all_chunks_hold(
    state: BinaryView,
    header: BinaryHeaderView,
    packet: Seq<u8>,
    file: Seq<u8>,
)
    requires
        state.wf(),
        state.header == Some(header),
        fits_as_data(header, packet) || fits_as_parity(header, packet),
    ensures
        ({
            let (after, handed_out) = state.processed(packet);
            handed_out == Some(file) <==> {
                &&& !state.complete
                &&& forall|i: usize|
                    i < header.file.data_packets ==> #[trigger] after.chunks.contains_key(i)
                &&& header.file.restored(in_order(after.chunks, header.file.data_packets)) == Some(
                    file,
                )
            }
        }),
{
    lemma_fits(state, header, packet);
    lemma_stored_wf(state, packet);
    let next = state.stored(packet)->0.repaired();
    let after = state.processed(packet).0;
    assert(after.chunks == next.chunks);
    assert(all_present(next.chunks.dom(), next.total()) <==> forall|i: usize|
        i < header.file.data_packets ==> #[trigger] next.chunks.contains_key(i));
}

/// A report is true: what is there and what is missing make up all chunks, as many are
/// there as the map shows, and the checksum and the digest read as those announced.
pub proof fn law_binary_reports_are_true(
    info: BinaryReceiverInfo,
    header: BinaryHeaderView,
    state: BinaryView,
)
    requires
        state.wf(),
        state.header == Some(header),
        info.reports(header, state),
    ensures
        info.fec_group_size == header.fec_group_size,
        info.filename@ == header.file.filename,
        info.total_packets == header.file.data_packets,
        info.file_size == header.file.file_size,
        info.compressed_size == header.file.compressed_size,
        info.complete == state.complete,
        info.recovered_packets == state.recovered,
        info.received_packets == count_set(state.present()),
        info.received_packets + info.missing_packets == info.total_packets,
        info.checksum matches Some(text) && text@.len() == 16 && is_hex(text@) && read_hex(text@)
            == header.file.checksum,
        info.sha256 matches Some(text) && text@.len() == 64 && forall|i: int|
            0 <= i < 32 ==> read_hex(#[trigger] text@.subrange(2 * i, 2 * i + 2))
                == header.file.digest[i],
        header.file.codec == 1 <==> info.codec@ == seq!['d', 'e', 'f', 'l', 'a', 't', 'e'],
        header.file.codec == 0 <==> info.codec@ == seq!['r', 'a', 'w'],
{
    law_progress_counts_the_map(state.chunks.dom(), header.file.data_packets);
    law_checksum_notation(header.file.checksum);
    law_digest_notation(header.file.digest);
    law_codecs_have_names(header.file.codec);
    assert(seq!['r', 'a', 'w'].len() != seq!['d', 'e', 'f', 'l', 'a', 't', 'e'].len());
}

/// The map, in as many places as there are chunks, shows exactly the chunks that are
/// kept.
pub proof fn law_binary_map_shows_what_is_kept(state: BinaryView)
    requires
        state.header is Some,
    ensures
        state.present().len() == state.header->0.file.data_packets,
        forall|i: usize|
            i < state.header->0.file.data_packets ==> #[trigger] state.present()[i as int]
                == state.chunks.contains_key(i),
{
}

/// A file is handed out exactly when the receiver becomes complete.
#[verifier::rlimit(60)]
pub proof fn law_binary_hands_out_when_complete(state: BinaryView, packet: Seq<u8>)
    requires
        state.wf(),
    ensures
        state.processed(packet).1 is Some <==> state.processed(packet).0.complete
            && !state.complete,
{
    if let Some(header) = parsed_header(packet) {
        lemma_replayed_completes(BinaryView::begun(header), header, state.pending);
        if state.header is Some {
            let fresh = BinaryView::begun(header);
            assert(state.pending =~= Seq::<Seq<u8>>::empty());
            assert(!fresh.chunks.dom().contains(0usize));
        }
    }
}

#[verifier::rlimit(60)]
proof fn lemma_replayed_completes(
    state: BinaryView,
    header: BinaryHeaderView,
    list: Seq<Seq<u8>>,
)
    requires
        state.header == Some(header),
        !state.complete,
    ensures
        state.replayed(list).1 is Some <==> state.replayed(list).0.complete,
        state.replayed(list).0.header == Some(header),
    decreases list.len(),
{
    if list.len() > 0 {
        lemma_replayed_completes(state, header, list.drop_last());
    }
}

// ---------------------------------------------------------------------------
// One transfer after another

/// The header of another transfer starts anew, whether the present one is complete or
/// not: nothing of it is left, and nothing is handed out yet. That is what the header
/// makes of a fresh receiver.
pub proof fn law_binary_another_header_starts_anew(
    state: BinaryView,
    header: BinaryHeaderView,
)
    requires
        state.wf(),
        state.header is Some,
        header.acceptable(),
        state.header->0.file.checksum != header.file.checksum,
    ensures
        ({
            let (after, handed_out) = state.processed(header_bytes(header));
            &&& after.header == Some(header)
            &&& after.chunks == Map::<usize, Seq<u8>>::empty()
            &&& after.parity == Map::<usize, Seq<u8>>::empty()
            &&& after.pending == Seq::<Seq<u8>>::empty()
            &&& after.recovered == 0
            &&& !after.complete
            &&& handed_out is None
        }),
        state.processed(header_bytes(header)) == BinaryView::empty().processed(
            header_bytes(header),
        ),
{
    law_binary_header_round_trip(header);
    let fresh = BinaryView::begun(header);
    assert(state.pending =~= Seq::<Seq<u8>>::empty());
    assert(!fresh.chunks.dom().contains(0usize));
    assert(fresh.replayed(Seq::empty()) == (fresh, None::<Seq<u8>>));
}

/// The header of the present transfer, seen again, changes nothing.
pub proof fn law_binary_same_header_changes_nothing(
    state: BinaryView,
    header: BinaryHeaderView,
)
    requires
        state.wf(),
        state.header is Some,
        header.acceptable(),
        state.header->0.file.checksum == header.file.checksum,
    ensures
        state.at_rest() ==> state.processed(header_bytes(header)) == (
            state,
            None::<Seq<u8>>,
        ),
{
    law_binary_header_round_trip(header);
}

/// Before any header, data and parity packets and packets of other kinds wait, up to
/// ten thousand of them. Packets of this transport that are too short or of no known
/// kind are dropped.
pub proof fn law_binary_packets_wait_for_a_header(state: BinaryView, packet: Seq<u8>)
    requires
        state.wf(),
        state.header is None,
        packet.len() < 4 || packet.take(4) != seq![0x54u8, 0x4eu8, 0x32u8, 0u8],
    ensures
        ({
            let own = packet.len() >= 4 && packet.take(3) == seq![0x54u8, 0x4eu8, 0x32u8];
            let whole = (packet[3] == 1 || packet[3] == 2) && packet.len() >= 16;
            let (after, handed_out) = state.processed(packet);
            &&& handed_out is None
            &&& after.header is None
            &&& (!own || whole) && state.pending.len() < 10_000 ==> after.pending
                == state.pending.push(packet)
            &&& own && !whole || state.pending.len() >= 10_000 ==> after.pending == state.pending
        }),
{
    if packet.len() >= 4 {
        lemma_first_four(packet, 0x54, 0x4e, 0x32, 0);
    }
}

/// A header that comes late finds what waited for it: the receiver is then as if the
/// header had come first and the packets that waited after it, and hands out the file
/// if one comes out of that.
pub proof fn law_binary_late_header_finds_what_waited(
    state: BinaryView,
    header: BinaryHeaderView,
)
    requires
        state.wf(),
        state.header is None,
        header.acceptable(),
    ensures
        ({
            let packets = seq![header_bytes(header)] + state.pending;
            let files = binary_files(BinaryView::empty(), packets);
            &&& state.processed(header_bytes(header)).0 == binary_run(
                BinaryView::empty(),
                packets,
            )
            &&& state.processed(header_bytes(header)).1 == (if files.len() > 0 {
                Some(files.last())
            } else {
                None
            })
        }),
{
    law_binary_header_round_trip(header);
    let opening = header_bytes(header);
    let fresh = BinaryView::begun(header);
    let head = seq![opening];
    assert(head.drop_last() =~= Seq::<Seq<u8>>::empty());
    reveal_with_fuel(binary_run, 2);
    reveal_with_fuel(binary_files, 2);
    assert(BinaryView::empty().processed(opening) == (fresh, None::<Seq<u8>>)) by {
        assert(!fresh.chunks.dom().contains(0usize));
        assert(fresh.replayed(Seq::empty()) == (fresh, None::<Seq<u8>>));
    }
    assert(binary_run(BinaryView::empty(), head) == fresh);
    assert(binary_files(BinaryView::empty(), head) =~= Seq::<Seq<u8>>::empty());
    lemma_run_append(BinaryView::empty(), head, state.pending);
    lemma_replayed_runs(fresh, header, state.pending);
    assert(Seq::<Seq<u8>>::empty() + binary_files(fresh, state.pending) =~= binary_files(
        fresh,
        state.pending,
    ));
    assert(fresh.at_rest()) by {
        assert(!fresh.chunks.dom().contains(0usize));
    }
    lemma_replayed_at_rest(fresh, state.pending);
}

/// Packets that waited are taken in as if they came now.
#[verifier::rlimit(60)]
proof fn lemma_replayed_runs(state: BinaryView, header: BinaryHeaderView, list: Seq<Seq<u8>>)
    requires
        state.header == Some(header),
        forall|i: int| 0 <= i < list.len() ==> !is_header_packet(#[trigger] list[i]),
    ensures
        state.replayed(list).0 == binary_run(state, list),
        state.replayed(list).0.header == Some(header),
        state.replayed(list).1 == (if binary_files(state, list).len() > 0 {
            Some(binary_files(state, list).last())
        } else {
            None
        }),
    decreases list.len(),
{
    if list.len() > 0 {
        let earlier = list.drop_last();
        assert forall|i: int| 0 <= i < earlier.len() implies !is_header_packet(
            #[trigger] earlier[i],
        ) by {
            assert(earlier[i] == list[i]);
        }
        lemma_replayed_runs(state, header, earlier);
        assert(!is_header_packet(list[list.len() - 1]));
        let before = binary_run(state, earlier);
        assert(before.processed(list.last()) == before.accepted(list.last()));
    }
}

/// Delivery does not depend on what a receiver did before. Where it holds another
/// transfer, finished or not, packets that come before the new header change nothing,
/// and from that header on it does what a fresh receiver does: it shows exactly
/// the chunks that can be had, and once they are enough it has handed out the file,
/// once.
#[verifier::rlimit(60)]
pub proof fn law_binary_delivery_from_any_state(
    state: BinaryView,
    header: BinaryHeaderView,
    encoded: Seq<u8>,
    file: Seq<u8>,
    packets: Seq<Seq<u8>>,
    first: int,
)
    requires
        state.wf(),
        state.header is Some,
        state.header->0.file.checksum != header.file.checksum,
        header.acceptable(),
        header.file.compressed_size == encoded.len(),
        forall|k: int|
            0 <= k < packets.len() ==> binary_packets(header, encoded).contains(
                #[trigger] packets[k],
            ),
        0 <= first < packets.len(),
        packets[first] == header_bytes(header),
        forall|k: int| 0 <= k < first ==> #[trigger] packets[k] != header_bytes(header),
    ensures
        binary_run(state, packets) == binary_run(BinaryView::empty(), packets.skip(first)),
        binary_files(state, packets) == binary_files(
            BinaryView::empty(),
            packets.skip(first),
        ),
        header.file.describes(encoded, file) ==> exactly_had(
            header,
            encoded,
            file,
            packets.skip(first),
            binary_run(state, packets),
            binary_files(state, packets),
        ),
{
    let opening = header_bytes(header);
    let before = packets.take(first);
    let rest = packets.skip(first);
    assert(packets =~= before + rest);
    lemma_run_append(state, before, rest);
    assert forall|k: int| 0 <= k < before.len() implies is_symbol_of(
        header,
        encoded,
        #[trigger] before[k],
    ) by {
        assert(before[k] == packets[k]);
        lemma_listed(header, encoded, packets[k]);
    }
    lemma_foreign_run(state, header, encoded, before);
    assert(Seq::<Seq<u8>>::empty() + binary_files(state, rest) =~= binary_files(state, rest));
    let head = seq![opening];
    let tail = rest.skip(1);
    assert(rest =~= head + tail);
    lemma_run_append(state, head, tail);
    lemma_run_append(BinaryView::empty(), head, tail);
    assert(head.drop_last() =~= Seq::<Seq<u8>>::empty());
    law_binary_another_header_starts_anew(state, header);
    reveal_with_fuel(binary_run, 2);
    reveal_with_fuel(binary_files, 2);
    assert(binary_run(state, head) == binary_run(BinaryView::empty(), head));
    assert(binary_files(state, head) == binary_files(BinaryView::empty(), head));
    assert forall|k: int| 0 <= k < rest.len() implies binary_packets(header, encoded).contains(
        #[trigger] rest[k],
    ) by {
        assert(rest[k] == packets[first + k]);
    }
    assert(rest[0] == opening);
    law_binary_delivery(header, encoded, file, rest, 0);
    assert(binary_remembered(rest, 0) =~= rest);
}

/// Packets of another transfer than the present one change nothing.
proof fn lemma_foreign_run(
    state: BinaryView,
    header: BinaryHeaderView,
    encoded: Seq<u8>,
    packets: Seq<Seq<u8>>,
)
    requires
        state.wf(),
        state.header is Some,
        state.header->0.file.checksum != header.file.checksum,
        header.acceptable(),
        header.file.compressed_size == encoded.len(),
        forall|k: int|
            0 <= k < packets.len() ==> is_symbol_of(header, encoded, #[trigger] packets[k]),
    ensures
        binary_run(state, packets) == state,
        binary_files(state, packets) == Seq::<Seq<u8>>::empty(),
    decreases packets.len(),
{
    if packets.len() > 0 {
        let earlier = packets.drop_last();
        assert forall|k: int| 0 <= k < earlier.len() implies is_symbol_of(
            header,
            encoded,
            #[trigger] earlier[k],
        ) by {
            assert(earlier[k] == packets[k]);
        }
        lemma_foreign_run(state, header, encoded, earlier);
        assert(is_symbol_of(header, encoded, packets[packets.len() - 1]));
        lemma_symbol_kind(header, encoded, packets.last());
        lemma_symbol_checksum(header, encoded, packets.last());
        law_binary_foreign_packets_change_nothing(state, packets.last());
    }
}

/// A packet of a transfer names it.
#[verifier::rlimit(60)]
proof fn lemma_symbol_checksum(header: BinaryHeaderView, encoded: Seq<u8>, packet: Seq<u8>)
    requires
        header.acceptable(),
        is_symbol_of(header, encoded, packet),
    ensures
        u64_at(packet, 4) == header.file.checksum,
{
    let sum = header.file.checksum;
    if exists|i: usize|
        i < header.file.data_packets && packet == #[trigger] data_packet(
            header,
            encoded,
            i as nat,
        ) {
        let i = choose|i: usize|
            i < header.file.data_packets && packet == #[trigger] data_packet(
                header,
                encoded,
                i as nat,
            );
        lemma_symbol_read(
            BINARY_DATA_TYPE,
            sum,
            i as nat,
            piece(encoded, header.file.chunk_size, i as nat),
        );
    } else {
        let g = choose|g: usize|
            g < header.group_count() && packet == #[trigger] parity_packet(
                header,
                encoded,
                g as nat,
            );
        lemma_symbol_read(
            BINARY_PARITY_TYPE,
            sum,
            g as nat,
            parity_of(
                source_chunks(encoded, header.file.chunk_size),
                g as nat * header.fec_group_size,
                header.group_end(g as nat),
                header.file.chunk_size,
            ),
        );
    }
}

/// Between packets, an attempt to finish brings nothing new.
pub proof fn law_binary_is_at_rest_between_packets(state: BinaryView, packet: Seq<u8>)
    requires
        state.wf(),
    ensures
        BinaryView::empty().at_rest(),
        state.at_rest() ==> state.processed(packet).0.at_rest(),
{
    if state.at_rest() {
        lemma_accepted_at_rest(state, packet);
        if let Some(header) = parsed_header(packet) {
            let fresh = BinaryView::begun(header);
            assert(!fresh.chunks.dom().contains(0usize));
            lemma_replayed_at_rest(fresh, state.pending);
        }
    }
}

#[verifier::rlimit(60)]
proof fn lemma_accepted_at_rest(state: BinaryView, packet: Seq<u8>)
    requires
        state.at_rest(),
    ensures
        state.accepted(packet).0.at_rest(),
{
}

#[verifier::rlimit(60)]
proof fn lemma_replayed_at_rest(state: BinaryView, list: Seq<Seq<u8>>)
    requires
        state.at_rest(),
    ensures
        state.replayed(list).0.at_rest(),
    decreases list.len(),
{
    if list.len() > 0 {
        lemma_replayed_at_rest(state, list.drop_last());
        lemma_accepted_at_rest(state.replayed(list.drop_last()).0, list.last());
    }
}

} // verus!
