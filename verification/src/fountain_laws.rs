//! What the fountain transport promises as a whole: once the packets that came
//! leave nothing open in any window, the receiver hands out the file, once,
//! whatever their order.

use crate::binary_receiver::law_codecs_have_names;
use crate::bytes::{padded, u16_at, u32_at, u64_at};
use crate::checksum::fnv1a;
use crate::codec::sha256;
use crate::fountain::{
    fountain_data_packet, fountain_header_bytes, fountain_packets, fountain_repair_packet,
    law_fountain_header_round_trip, lemma_fountain_data_read, lemma_fountain_repair_read,
    packet_mask, parsed_fountain_header, repair_packets_below, repairs_below, window_count,
    window_repairs, window_source, window_width, FountainHeaderView, FOUNTAIN_DATA_FIXED_BYTES,
    FOUNTAIN_DATA_TYPE, FOUNTAIN_REPAIR_TYPE, FOUNTAIN_WINDOW_SIZE,
};
use crate::fountain_receiver::{
    all_known, chunk_at, data_key, is_fountain_data, is_fountain_header, is_fountain_repair,
    known_chunks, law_symbol_keys_differ, lemma_chunk_at, lemma_stored, symbol_key,
    FountainReceiverInfo, FountainView,
};
use crate::layout::{border, byte_at, law_numbers_are_read_from_bytes, lemma_first_four, read_be};
use crate::mask::law_repair_masks_are_usable;
use crate::notation::{is_hex, law_checksum_notation, law_digest_notation, read_hex};
use crate::ranges::{gaps, in_gaps, law_ranges_list_what_is_missing};
use crate::solving::{
    covers, determined, even_with_all, follows, grounded, holds, kept_masks,
    law_determined_masks_fill_the_basis, law_full_basis_means_determined,
    law_full_basis_solves_all, law_single_masks_determine, law_solved_chunks_are_the_source,
    law_solving_once_is_enough, lemma_added_covers, lemma_added_follows, lemma_added_grounded,
    lemma_added_sound, lemma_added_wf, lemma_empty_sound, lemma_mixed_length, lemma_mixed_unit,
    lemma_solved_grounded, lemma_solved_keeps, lemma_unit_settles, mixed, sound, uniform,
};
use crate::store::{count_set, lemma_count_more};
use crate::transfer::{
    law_own_chunks_restore_the_file, piece, source_chunk, source_chunks,
    BINARY_MAX_PENDING_PACKETS,
};
use crate::window::{EquationView, WindowView};
use vstd::prelude::*;
use vstd::utf8::*;

verus! {

/// The receiver after a series of packets.
pub open spec fn fountain_run(state: FountainView, packets: Seq<Seq<u8>>) -> FountainView
    decreases packets.len(),
{
    if packets.len() == 0 {
        state
    } else {
        fountain_run(state, packets.drop_last()).processed(packets.last()).0
    }
}

/// The files handed out during a series of packets.
pub open spec fn fountain_files(state: FountainView, packets: Seq<Seq<u8>>) -> Seq<Seq<u8>>
    decreases packets.len(),
{
    if packets.len() == 0 {
        Seq::empty()
    } else {
        let earlier = fountain_files(state, packets.drop_last());
        match fountain_run(state, packets.drop_last()).processed(packets.last()).1 {
            Some(file) => earlier.push(file),
            None => earlier,
        }
    }
}

/// The window that a data or repair packet is for, and the chunks it mixes.
pub open spec fn equation_of(packet: Seq<u8>) -> Option<(nat, u32)> {
    if is_fountain_data(packet) {
        let index = u32_at(packet, 12);
        Some(
            (
                index / FOUNTAIN_WINDOW_SIZE as nat,
                1u32 << ((index % FOUNTAIN_WINDOW_SIZE as nat) as u32),
            ),
        )
    } else if is_fountain_repair(packet) {
        Some((u16_at(packet, 12), u32_at(packet, 14) as u32))
    } else {
        None
    }
}

/// The key under which a data or repair packet is counted.
pub open spec fn key_of(packet: Seq<u8>) -> Option<u64> {
    if is_fountain_data(packet) {
        Some(symbol_key(FOUNTAIN_DATA_TYPE, u32_at(packet, 12), 0) as u64)
    } else if is_fountain_repair(packet) {
        Some(
            symbol_key(
                FOUNTAIN_REPAIR_TYPE,
                u16_at(packet, 12),
                u32_at(packet, 14) as u32,
            ) as u64,
        )
    } else {
        None
    }
}

/// The masks that packets bring for a window.
pub open spec fn masks_for(packets: Seq<Seq<u8>>, window: nat) -> Set<u32> {
    Set::new(
        |mask: u32|
            exists|k: int|
                0 <= k < packets.len() && equation_of(#[trigger] packets[k]) == Some(
                    (window, mask),
                ),
    )
}

/// Whether the packets received of a transfer are enough: in no window do their
/// masks leave anything open.
pub open spec fn fountain_enough(header: FountainHeaderView, packets: Seq<Seq<u8>>) -> bool {
    forall|window: nat|
        window < window_count(header.file.data_packets) ==> determined(
            #[trigger] masks_for(packets, window),
            window_width(header.file.data_packets, window),
        )
}

/// Whether a window is in order: it says nothing false, it says all that `masks`
/// say and no more, and it has solved what it can.
spec fn in_shape(
    window: WindowView,
    source: Seq<Seq<u8>>,
    length: nat,
    masks: Set<u32>,
) -> bool {
    &&& sound(window, source, length)
    &&& covers(window, masks)
    &&& follows(window, masks)
    &&& grounded(window)
    &&& window.solved() == window
}

/// Whether the number in a data packet is small, as it is in every data packet of
/// a transfer.
spec fn small(packet: Seq<u8>) -> bool {
    is_fountain_data(packet) ==> u32_at(packet, 12) < 0x1_0000
}

/// Whether a symbol that counts as seen is one of the packets that came.
spec fn came(key: u64, seen: Seq<Seq<u8>>) -> bool {
    exists|k: int|
        0 <= k < seen.len() && key_of(#[trigger] seen[k]) == Some(key) && small(seen[k])
}

/// Whether a receiver has taken note of a packet.
spec fn noted(state: FountainView, packet: Seq<u8>) -> bool {
    &&& key_of(packet) matches Some(key) ==> state.seen.contains(key)
    &&& equation_of(packet) matches Some((window, mask)) ==> state.windows.contains_key(
        window as usize,
    )
}

/// Whether a receiver is well on its way in a transfer: every window is in order
/// with respect to what `seen` brought, and the receiver is complete once
/// nothing is missing.
#[verifier::opaque]
spec fn on_course(
    state: FountainView,
    header: FountainHeaderView,
    encoded: Seq<u8>,
    seen: Seq<Seq<u8>>,
) -> bool {
    &&& state.wf()
    &&& state.header == Some(header)
    &&& forall|w: usize|
        w < window_count(header.file.data_packets) ==> in_shape(
            #[trigger] state.window_at(w),
            window_source(encoded, header.file.chunk_size, w as nat),
            header.file.chunk_size,
            masks_for(seen, w as nat),
        )
    &&& forall|k: int| 0 <= k < seen.len() ==> noted(state, #[trigger] seen[k])
    &&& forall|key: u64| #[trigger] state.seen.contains(key) ==> came(key, seen)
    &&& state.complete == all_known(state.windows, header.file.data_packets)
}

/// Whether a packet is a data or repair packet of a transfer.
spec fn is_symbol_of(header: FountainHeaderView, encoded: Seq<u8>, packet: Seq<u8>) -> bool {
    ||| exists|i: usize|
        i < header.file.data_packets && packet == #[trigger] fountain_data_packet(
            header,
            encoded,
            i as nat,
        )
    ||| exists|w: usize, r: nat|
        w < window_count(header.file.data_packets) && packet == #[trigger] fountain_repair_packet(
            header,
            encoded,
            w as nat,
            r,
        )
}

// ---------------------------------------------------------------------------
// Windows

proof fn lemma_window_source(header: FountainHeaderView, encoded: Seq<u8>, window: nat)
    requires
        header.acceptable(),
        header.file.compressed_size == encoded.len(),
        window < window_count(header.file.data_packets),
    ensures
        ({
            let source = window_source(encoded, header.file.chunk_size, window);
            &&& source.len() == window_width(header.file.data_packets, window)
            &&& 1 <= source.len() <= FOUNTAIN_WINDOW_SIZE
            &&& window * FOUNTAIN_WINDOW_SIZE + source.len() <= header.file.data_packets
            &&& uniform(source, header.file.chunk_size)
            &&& forall|l: int|
                0 <= l < source.len() ==> #[trigger] source[l] == source_chunk(
                    encoded,
                    header.file.chunk_size,
                    (window * FOUNTAIN_WINDOW_SIZE + l) as nat,
                )
        }),
{
    let chunks = source_chunks(encoded, header.file.chunk_size);
    assert(chunks.len() == header.file.data_packets);
}

/// A window stays in order when a true equation is added, and with it the chunk
/// that it is if it selects only one.
#[verifier::rlimit(60)]
proof fn lemma_advanced_in_shape(
    window: WindowView,
    source: Seq<Seq<u8>>,
    length: nat,
    masks: Set<u32>,
    equation: EquationView,
    arrived: Option<nat>,
)
    requires
        in_shape(window, source, length, masks),
        holds(equation, source, length),
        arrived matches Some(local) ==> local < source.len() && equation.mask == 1u32 << (
        local as u32),
    ensures
        in_shape(
            (match arrived {
                Some(local) => window.added(equation).learned(local, equation.payload).solved(),
                None => window.added(equation).solved(),
            }),
            source,
            length,
            masks.insert(equation.mask),
        ),
{
    let grown = window.added(equation);
    let told = match arrived {
        Some(local) => grown.learned(local, equation.payload),
        None => grown,
    };
    let after = told.solved();
    lemma_added_wf(window, equation);
    lemma_added_sound(window, equation, source, length);
    lemma_added_grounded(window, equation);
    if let Some(local) = arrived {
        lemma_mixed_unit(source, local, length);
        lemma_unit_settles(window, equation, local);
    }
    assert(sound(told, source, length)) by {
        assert(told.basis == grown.basis);
        assert forall|i: int| 0 <= i < source.len() && (#[trigger] told.chunks[i])
            is Some implies told.chunks[i] == Some(source[i]) by {
            if grown.chunks[i] is Some {
                assert(told.chunks[i] == grown.chunks[i]);
            }
        }
    }
    assert(grounded(told)) by {
        assert forall|i: int| 0 <= i < told.chunks.len() && (#[trigger] told.chunks[i])
            is Some implies told.basis[i] is Some by {
            if grown.chunks[i] is Some {
                assert(grown.basis[i] is Some);
            }
        }
    }
    law_solved_chunks_are_the_source(told, source, length);
    lemma_solved_grounded(told);
    law_solving_once_is_enough(told);
    assert(after.basis == grown.basis);
    lemma_added_covers(window, masks, equation);
    lemma_added_follows(window, masks, equation);
    let more = masks.insert(equation.mask);
    assert(covers(after, more)) by {
        assert forall|pattern: Seq<bool>|
            pattern.len() == after.basis.len() && #[trigger] even_with_all(
                kept_masks(after.basis),
                pattern,
            ) implies even_with_all(more, pattern) by {
            assert(even_with_all(kept_masks(grown.basis), pattern));
        }
    }
    assert(follows(after, more)) by {
        assert forall|pattern: Seq<bool>|
            pattern.len() == after.basis.len() && #[trigger] even_with_all(
                more,
                pattern,
            ) implies even_with_all(kept_masks(after.basis), pattern) by {
            assert(even_with_all(kept_masks(grown.basis), pattern));
        }
    }
}

// ---------------------------------------------------------------------------
// Packets

proof fn lemma_data_packet(header: FountainHeaderView, encoded: Seq<u8>, index: usize)
    requires
        header.acceptable(),
        header.file.compressed_size == encoded.len(),
        index < header.file.data_packets,
    ensures
        ({
            let packet = fountain_data_packet(header, encoded, index as nat);
            let w = (index as nat / FOUNTAIN_WINDOW_SIZE as nat) as usize;
            let l = index as nat % FOUNTAIN_WINDOW_SIZE as nat;
            let source = window_source(encoded, header.file.chunk_size, w as nat);
            let equation = EquationView {
                mask: 1u32 << (l as u32),
                payload: source_chunk(encoded, header.file.chunk_size, index as nat),
            };
            &&& is_fountain_data(packet)
            &&& !is_fountain_header(packet)
            &&& equation_of(packet) == Some((w as nat, equation.mask))
            &&& w < window_count(header.file.data_packets)
            &&& holds(equation, source, header.file.chunk_size)
            &&& small(packet)
            &&& forall|state: FountainView|
                state.header == Some(header) ==> {
                    if state.seen.contains(key_of(packet)->0) {
                        (#[trigger] state.stored(packet)) is None
                    } else {
                        &&& state.stored(packet) is Some
                        &&& state.stored(packet)->0.windows == state.windows.insert(
                            w,
                            state.advanced(w, equation, Some(l)),
                        )
                        &&& state.stored(packet)->0.header == state.header
                        &&& state.stored(packet)->0.complete == state.complete
                        &&& state.stored(packet)->0.seen == state.seen.insert(key_of(packet)->0)
                    }
                }
        }),
{
    let part = piece(encoded, header.file.chunk_size, index as nat);
    let packet = fountain_data_packet(header, encoded, index as nat);
    lemma_fountain_data_read(header.file.checksum, index as nat, part);
    let w = index as nat / FOUNTAIN_WINDOW_SIZE as nat;
    let l = index as nat % FOUNTAIN_WINDOW_SIZE as nat;
    lemma_window_source(header, encoded, w);
    let source = window_source(encoded, header.file.chunk_size, w);
    lemma_mixed_unit(source, l, header.file.chunk_size);
    assert(source[l as int] == source_chunk(encoded, header.file.chunk_size, index as nat));
    assert(part.len() == header.file.expected_len(index as nat));
}

proof fn lemma_repair_packet(header: FountainHeaderView, encoded: Seq<u8>, window: usize, repair: nat)
    requires
        header.acceptable(),
        header.file.compressed_size == encoded.len(),
        window < window_count(header.file.data_packets),
    ensures
        ({
            let packet = fountain_repair_packet(header, encoded, window as nat, repair);
            let source = window_source(encoded, header.file.chunk_size, window as nat);
            let mask = packet_mask(header, window as nat, repair);
            let equation = EquationView {
                mask,
                payload: mixed(source, mask, 0, source.len(), header.file.chunk_size),
            };
            &&& is_fountain_repair(packet)
            &&& !is_fountain_data(packet)
            &&& !is_fountain_header(packet)
            &&& equation_of(packet) == Some((window as nat, equation.mask))
            &&& holds(equation, source, header.file.chunk_size)
            &&& small(packet)
            &&& forall|state: FountainView|
                state.header == Some(header) ==> {
                    if state.seen.contains(key_of(packet)->0) {
                        (#[trigger] state.stored(packet)) is None
                    } else {
                        &&& state.stored(packet) is Some
                        &&& state.stored(packet)->0.windows == state.windows.insert(
                            window,
                            state.advanced(window, equation, None),
                        )
                        &&& state.stored(packet)->0.header == state.header
                        &&& state.stored(packet)->0.complete == state.complete
                        &&& state.stored(packet)->0.seen == state.seen.insert(key_of(packet)->0)
                    }
                }
        }),
{
    let packet = fountain_repair_packet(header, encoded, window as nat, repair);
    let source = window_source(encoded, header.file.chunk_size, window as nat);
    let mask = packet_mask(header, window as nat, repair);
    lemma_window_source(header, encoded, window as nat);
    lemma_mixed_length(source, mask, 0, source.len(), header.file.chunk_size);
    lemma_fountain_repair_read(
        header.file.checksum,
        window as nat,
        mask,
        mixed(source, mask, 0, source.len(), header.file.chunk_size),
    );
    law_repair_masks_are_usable(
        (header.file.checksum as u32) ^ (window as nat as u32),
        source.len(),
        repair as u32,
    );
}

/// The equation that a packet of the transfer adds.
#[verifier::rlimit(60)]
proof fn lemma_symbol(
    state: FountainView,
    header: FountainHeaderView,
    encoded: Seq<u8>,
    packet: Seq<u8>,
) -> (added: (usize, EquationView, Option<nat>))
    requires
        state.header == Some(header),
        header.acceptable(),
        header.file.compressed_size == encoded.len(),
        is_symbol_of(header, encoded, packet),
    ensures
        is_fountain_data(packet) || is_fountain_repair(packet),
        !is_fountain_header(packet),
        added.0 < window_count(header.file.data_packets),
        equation_of(packet) == Some((added.0 as nat, added.1.mask)),
        holds(
            added.1,
            window_source(encoded, header.file.chunk_size, added.0 as nat),
            header.file.chunk_size,
        ),
        added.2 matches Some(local) ==> local < window_width(
            header.file.data_packets,
            added.0 as nat,
        ) && added.1.mask == 1u32 << (local as u32),
        small(packet),
        key_of(packet) is Some,
        state.seen.contains(key_of(packet)->0) ==> state.stored(packet) is None,
        !state.seen.contains(key_of(packet)->0) ==> {
            &&& state.stored(packet) is Some
            &&& state.stored(packet)->0.windows == state.windows.insert(
                added.0,
                state.advanced(added.0, added.1, added.2),
            )
            &&& state.stored(packet)->0.header == state.header
            &&& state.stored(packet)->0.complete == state.complete
            &&& state.stored(packet)->0.seen == state.seen.insert(key_of(packet)->0)
        },
{
    if exists|i: usize|
        i < header.file.data_packets && packet == #[trigger] fountain_data_packet(
            header,
            encoded,
            i as nat,
        ) {
        let i = choose|i: usize|
            i < header.file.data_packets && packet == #[trigger] fountain_data_packet(
                header,
                encoded,
                i as nat,
            );
        lemma_data_packet(header, encoded, i);
        let w = (i as nat / FOUNTAIN_WINDOW_SIZE as nat) as usize;
        let l = i as nat % FOUNTAIN_WINDOW_SIZE as nat;
        (
            w,
            EquationView {
                mask: 1u32 << (l as u32),
                payload: source_chunk(encoded, header.file.chunk_size, i as nat),
            },
            Some(l),
        )
    } else {
        let (w, r) = choose|w: usize, r: nat|
            w < window_count(header.file.data_packets) && packet
                == #[trigger] fountain_repair_packet(header, encoded, w as nat, r);
        lemma_repair_packet(header, encoded, w, r);
        let source = window_source(encoded, header.file.chunk_size, w as nat);
        let mask = packet_mask(header, w as nat, r);
        (
            w,
            EquationView {
                mask,
                payload: mixed(source, mask, 0, source.len(), header.file.chunk_size),
            },
            None,
        )
    }
}

/// Symbols with one key bring one equation.
proof fn lemma_same_key(a: Seq<u8>, b: Seq<u8>)
    requires
        key_of(a) is Some,
        key_of(a) == key_of(b),
        small(a),
        small(b),
    ensures
        equation_of(a) == equation_of(b),
{
    let position = |p: Seq<u8>|
        if is_fountain_data(p) {
            u32_at(p, 12)
        } else {
            u16_at(p, 12)
        };
    let mask = |p: Seq<u8>|
        if is_fountain_data(p) {
            0u32
        } else {
            u32_at(p, 14) as u32
        };
    law_symbol_keys_differ(a[3], position(a), mask(a), b[3], position(b), mask(b));
}

/// One more packet brings its own mask, to its own window.
proof fn lemma_masks_push(seen: Seq<Seq<u8>>, packet: Seq<u8>, window: nat)
    ensures
        masks_for(seen.push(packet), window) == (match equation_of(packet) {
            Some((w, mask)) => if w == window {
                masks_for(seen, window).insert(mask)
            } else {
                masks_for(seen, window)
            },
            None => masks_for(seen, window),
        }),
{
    let more = seen.push(packet);
    assert(more.last() == packet);
    let before = masks_for(seen, window);
    let after = masks_for(more, window);
    assert forall|mask: u32| after.contains(mask) <==> before.contains(mask) || equation_of(packet)
        == Some((window, mask)) by {
        if after.contains(mask) {
            let k = choose|k: int|
                0 <= k < more.len() && equation_of(#[trigger] more[k]) == Some((window, mask));
            if k < seen.len() {
                assert(seen[k] == more[k]);
            }
        }
        if before.contains(mask) {
            let k = choose|k: int|
                0 <= k < seen.len() && equation_of(#[trigger] seen[k]) == Some((window, mask));
            assert(more[k] == seen[k]);
        }
        if equation_of(packet) == Some((window, mask)) {
            assert(more[seen.len() as int] == packet);
        }
    }
    match equation_of(packet) {
        Some((w, mask)) => {
            if w == window {
                assert(after =~= before.insert(mask));
            } else {
                assert(after =~= before);
            }
        },
        None => {
            assert(after =~= before);
        },
    }
}

// ---------------------------------------------------------------------------
// Delivery

/// A complete set of true chunks gives the file.
proof fn lemma_restored(
    state: FountainView,
    header: FountainHeaderView,
    encoded: Seq<u8>,
    file: Seq<u8>,
)
    requires
        state.wf(),
        state.header == Some(header),
        header.file.describes(encoded, file),
        !state.complete,
        forall|w: usize|
            w < window_count(header.file.data_packets) ==> sound(
                #[trigger] state.window_at(w),
                window_source(encoded, header.file.chunk_size, w as nat),
                header.file.chunk_size,
            ),
    ensures
        state.finished() == (if all_known(state.windows, header.file.data_packets) {
            (FountainView { complete: true, ..state }, Some(file))
        } else {
            (state, None)
        }),
{
    if all_known(state.windows, header.file.data_packets) {
        let chunks = source_chunks(encoded, header.file.chunk_size);
        let known = known_chunks(state.windows, header.file.data_packets);
        assert forall|i: int| 0 <= i < header.file.data_packets implies #[trigger] known[i]
            == chunks[i] by {
            let w = (i as nat / FOUNTAIN_WINDOW_SIZE as nat) as usize;
            let l = i as nat % FOUNTAIN_WINDOW_SIZE as nat;
            lemma_chunk_at(state, header, i as nat);
            lemma_window_source(header, encoded, w as nat);
            assert(chunk_at(state.windows, i as nat) is Some);
            assert(sound(
                state.window_at(w),
                window_source(encoded, header.file.chunk_size, w as nat),
                header.file.chunk_size,
            ));
            assert(state.window_at(w).chunks[l as int] is Some);
            assert(w as nat * FOUNTAIN_WINDOW_SIZE + l == i);
        }
        assert(known =~= chunks);
        law_own_chunks_restore_the_file(header.file, encoded, file);
    }
}

/// A packet of the transfer keeps the receiver on course, and the file is
/// handed out by the packet that completes it.
#[verifier::rlimit(60)]
proof fn lemma_accepted(
    state: FountainView,
    header: FountainHeaderView,
    encoded: Seq<u8>,
    file: Seq<u8>,
    seen: Seq<Seq<u8>>,
    packet: Seq<u8>,
)
    requires
        on_course(state, header, encoded, seen),
        header.file.describes(encoded, file),
        is_symbol_of(header, encoded, packet),
    ensures
        on_course(state.accepted(packet).0, header, encoded, seen.push(packet)),
        state.complete ==> state.accepted(packet).0.complete,
        state.accepted(packet).1 == (if !state.complete && state.accepted(packet).0.complete {
            Some(file)
        } else {
            None
        }),
{
    reveal(on_course);
    let length = header.file.chunk_size;
    let total = header.file.data_packets;
    let more = seen.push(packet);
    assert(more[seen.len() as int] == packet);
    let (window, equation, arrived) = lemma_symbol(state, header, encoded, packet);
    let key = key_of(packet)->0;
    assert forall|old_key: u64| came(old_key, seen) implies came(old_key, more) by {
        let k = choose|k: int|
            0 <= k < seen.len() && key_of(#[trigger] seen[k]) == Some(old_key) && small(seen[k]);
        assert(more[k] == seen[k]);
    }
    if state.seen.contains(key) {
        let k = choose|k: int|
            0 <= k < seen.len() && key_of(#[trigger] seen[k]) == Some(key) && small(seen[k]);
        lemma_same_key(seen[k], packet);
        assert(noted(state, seen[k]));
        assert forall|w: usize| w < window_count(total) implies in_shape(
            #[trigger] state.window_at(w),
            window_source(encoded, length, w as nat),
            length,
            masks_for(more, w as nat),
        ) by {
            lemma_masks_push(seen, packet, w as nat);
            if w == window {
                assert(masks_for(seen, w as nat).contains(equation.mask));
                assert(masks_for(seen, w as nat).insert(equation.mask) =~= masks_for(
                    seen,
                    w as nat,
                ));
            }
        }
        assert forall|n: int| 0 <= n < more.len() implies noted(state, #[trigger] more[n]) by {
            if n < seen.len() {
                assert(noted(state, seen[n]));
            }
        }
    } else {
        let next = state.stored(packet)->0;
        let source = window_source(encoded, length, window as nat);
        lemma_window_source(header, encoded, window as nat);
        lemma_stored(state, header, packet);
        assert(in_shape(state.window_at(window), source, length, masks_for(seen, window as nat)));
        lemma_advanced_in_shape(
            state.window_at(window),
            source,
            length,
            masks_for(seen, window as nat),
            equation,
            arrived,
        );
        assert forall|w: usize| w < window_count(total) implies in_shape(
            #[trigger] next.window_at(w),
            window_source(encoded, length, w as nat),
            length,
            masks_for(more, w as nat),
        ) by {
            lemma_masks_push(seen, packet, w as nat);
            if w == window {
                assert(next.window_at(w) == state.advanced(window, equation, arrived));
            } else {
                assert(next.window_at(w) == state.window_at(w));
                assert(in_shape(
                    state.window_at(w),
                    window_source(encoded, length, w as nat),
                    length,
                    masks_for(seen, w as nat),
                ));
            }
        }
        if !state.complete {
            lemma_restored(next, header, encoded, file);
        }
        let after = next.finished().0;
        assert(after.windows == next.windows && after.header == next.header);
        assert forall|n: int| 0 <= n < more.len() implies noted(after, #[trigger] more[n]) by {
            if n < seen.len() {
                assert(noted(state, seen[n]));
            }
        }
        assert forall|w: usize| w < window_count(total) implies in_shape(
            #[trigger] after.window_at(w),
            window_source(encoded, length, w as nat),
            length,
            masks_for(more, w as nat),
        ) by {
            assert(after.window_at(w) == next.window_at(w));
        }
        assert(came(key, more));
    }
}

proof fn lemma_empty_solved(width: nat, pivot: nat)
    ensures
        WindowView::empty(width).solved_from(pivot) == WindowView::empty(width).chunks,
    decreases width - pivot,
{
    if pivot < width {
        lemma_empty_solved(width, pivot + 1);
    }
}

#[verifier::rlimit(60)]
proof fn lemma_begun(header: FountainHeaderView, encoded: Seq<u8>)
    requires
        header.acceptable(),
        header.file.compressed_size == encoded.len(),
    ensures
        on_course(FountainView::begun(header), header, encoded, Seq::empty()),
        !FountainView::begun(header).complete,
{
    reveal(on_course);
    let fresh = FountainView::begun(header);
    let total = header.file.data_packets;
    assert forall|w: usize| w < window_count(total) implies in_shape(
        #[trigger] fresh.window_at(w),
        window_source(encoded, header.file.chunk_size, w as nat),
        header.file.chunk_size,
        masks_for(Seq::empty(), w as nat),
    ) by {
        lemma_window_source(header, encoded, w as nat);
        let source = window_source(encoded, header.file.chunk_size, w as nat);
        lemma_empty_sound(source, header.file.chunk_size);
        assert(fresh.window_at(w) == WindowView::empty(source.len()));
        assert(masks_for(Seq::<Seq<u8>>::empty(), w as nat) =~= Set::<u32>::empty());
        lemma_empty_solved(source.len(), 0);
        assert(kept_masks(fresh.window_at(w).basis) =~= Set::<u32>::empty());
    }
    assert(chunk_at(fresh.windows, 0) is None);
}

#[verifier::rlimit(60)]
proof fn lemma_replayed(
    header: FountainHeaderView,
    encoded: Seq<u8>,
    file: Seq<u8>,
    list: Seq<Seq<u8>>,
)
    requires
        header.acceptable(),
        header.file.describes(encoded, file),
        forall|k: int| 0 <= k < list.len() ==> is_symbol_of(header, encoded, #[trigger] list[k]),
    ensures
        on_course(FountainView::begun(header).replayed(list).0, header, encoded, list),
        FountainView::begun(header).replayed(list).1 == (if FountainView::begun(header).replayed(
            list,
        ).0.complete {
            Some(file)
        } else {
            None
        }),
    decreases list.len(),
{
    let fresh = FountainView::begun(header);
    if list.len() == 0 {
        lemma_begun(header, encoded);
        assert(list =~= Seq::<Seq<u8>>::empty());
    } else {
        let earlier = list.drop_last();
        assert forall|k: int| 0 <= k < earlier.len() implies is_symbol_of(
            header,
            encoded,
            #[trigger] earlier[k],
        ) by {
            assert(earlier[k] == list[k]);
        }
        lemma_replayed(header, encoded, file, earlier);
        assert(is_symbol_of(header, encoded, list[list.len() - 1]));
        lemma_accepted(
            fresh.replayed(earlier).0,
            header,
            encoded,
            file,
            earlier,
            list.last(),
        );
        assert(earlier.push(list.last()) =~= list);
    }
}

/// Seeing the header once more brings no equation.
#[verifier::rlimit(60)]
proof fn lemma_header_is_no_symbol(
    state: FountainView,
    header: FountainHeaderView,
    encoded: Seq<u8>,
    seen: Seq<Seq<u8>>,
)
    requires
        on_course(state, header, encoded, seen),
    ensures
        on_course(state, header, encoded, seen.push(fountain_header_bytes(header))),
{
    reveal(on_course);
    let opening = fountain_header_bytes(header);
    law_fountain_header_round_trip(header);
    assert(equation_of(opening) is None);
    assert forall|w: usize| w < window_count(header.file.data_packets) implies in_shape(
        #[trigger] state.window_at(w),
        window_source(encoded, header.file.chunk_size, w as nat),
        header.file.chunk_size,
        masks_for(seen.push(opening), w as nat),
    ) by {
        lemma_masks_push(seen, opening, w as nat);
    }
    assert forall|k: int| 0 <= k < seen.push(opening).len() implies noted(
        state,
        #[trigger] seen.push(opening)[k],
    ) by {
        if k < seen.len() {
            assert(noted(state, seen[k]));
        }
    }
    assert forall|key: u64| #[trigger] state.seen.contains(key) implies came(
        key,
        seen.push(opening),
    ) by {
        let k = choose|k: int|
            0 <= k < seen.len() && key_of(#[trigger] seen[k]) == Some(key) && small(seen[k]);
        assert(seen.push(opening)[k] == seen[k]);
    }
}

/// A receiver on course has nothing to hand out, and gains nothing from the
/// header.
#[verifier::rlimit(60)]
proof fn lemma_quiet(
    state: FountainView,
    header: FountainHeaderView,
    encoded: Seq<u8>,
    seen: Seq<Seq<u8>>,
)
    requires
        on_course(state, header, encoded, seen),
    ensures
        state.header == Some(header),
        header.acceptable(),
        state.finished() == (state, None::<Seq<u8>>),
        state.processed(fountain_header_bytes(header)) == (state, None::<Seq<u8>>),
{
    reveal(on_course);
    law_fountain_header_round_trip(header);
}

/// What has happened after some packets of a transfer.
spec fn delivered(
    header: FountainHeaderView,
    encoded: Seq<u8>,
    file: Seq<u8>,
    packets: Seq<Seq<u8>>,
) -> bool {
    let state = fountain_run(FountainView::empty(), packets);
    let files = fountain_files(FountainView::empty(), packets);
    if packets.contains(fountain_header_bytes(header)) {
        &&& on_course(state, header, encoded, packets)
        &&& files == (if state.complete {
            seq![file]
        } else {
            Seq::empty()
        })
    } else {
        &&& state == (FountainView { pending: packets, ..FountainView::empty() })
        &&& files == Seq::<Seq<u8>>::empty()
    }
}

#[verifier::rlimit(60)]
proof fn lemma_delivered(
    header: FountainHeaderView,
    encoded: Seq<u8>,
    file: Seq<u8>,
    packets: Seq<Seq<u8>>,
)
    requires
        header.acceptable(),
        header.file.describes(encoded, file),
        forall|k: int|
            0 <= k < packets.len() ==> (#[trigger] packets[k]) == fountain_header_bytes(header)
                || is_symbol_of(header, encoded, packets[k]),
        packets.len() <= BINARY_MAX_PENDING_PACKETS || exists|k: int|
            0 <= k <= BINARY_MAX_PENDING_PACKETS && k < packets.len() && (#[trigger] packets[k])
                == fountain_header_bytes(header),
    ensures
        delivered(header, encoded, file, packets),
    decreases packets.len(),
{
    let start = FountainView::empty();
    let opening = fountain_header_bytes(header);
    if packets.len() == 0 {
        assert(FountainView { pending: packets, ..start } =~= start);
    } else {
        let earlier = packets.drop_last();
        let packet = packets.last();
        assert(packet == packets[packets.len() - 1]);
        assert forall|k: int| 0 <= k < earlier.len() implies (#[trigger] earlier[k]) == opening
            || is_symbol_of(header, encoded, earlier[k]) by {
            assert(earlier[k] == packets[k]);
        }
        if earlier.len() > BINARY_MAX_PENDING_PACKETS {
            let k = choose|k: int|
                0 <= k <= BINARY_MAX_PENDING_PACKETS && k < packets.len() && (
                #[trigger] packets[k]) == opening;
            assert(earlier[k] == opening);
        }
        lemma_delivered(header, encoded, file, earlier);
        let state = fountain_run(start, earlier);
        assert(earlier.push(packet) =~= packets);
        assert(packets.contains(opening) <==> earlier.contains(opening) || packet == opening) by {
            if earlier.contains(opening) {
                let k = choose|k: int| 0 <= k < earlier.len() && earlier[k] == opening;
                assert(packets[k] == opening);
            }
            if packets.contains(opening) && packet != opening {
                let k = choose|k: int| 0 <= k < packets.len() && packets[k] == opening;
                assert(earlier[k] == opening);
            }
        }
        law_fountain_header_round_trip(header);
        if packet == opening {
            if earlier.contains(opening) {
                lemma_quiet(state, header, encoded, earlier);
                lemma_header_is_no_symbol(state, header, encoded, earlier);
            } else {
                assert forall|k: int| 0 <= k < earlier.len() implies is_symbol_of(
                    header,
                    encoded,
                    #[trigger] earlier[k],
                ) by {
                    assert(earlier.contains(earlier[k]));
                }
                lemma_replayed(header, encoded, file, earlier);
                let after = FountainView::begun(header).replayed(earlier).0;
                lemma_quiet(after, header, encoded, earlier);
                lemma_header_is_no_symbol(after, header, encoded, earlier);
                assert(fountain_files(start, packets) =~= (if after.complete {
                    seq![file]
                } else {
                    Seq::empty()
                }));
            }
        } else {
            lemma_symbol(FountainView::begun(header), header, encoded, packet);
            if earlier.contains(opening) {
                lemma_quiet(state, header, encoded, earlier);
                lemma_accepted(state, header, encoded, file, earlier, packet);
                assert(state.processed(packet) == state.accepted(packet));
                let after = state.accepted(packet).0;
                assert(fountain_files(start, packets) =~= (if after.complete {
                    seq![file]
                } else {
                    Seq::empty()
                }));
            } else {
                assert(earlier.len() < BINARY_MAX_PENDING_PACKETS) by {
                    if earlier.len() >= BINARY_MAX_PENDING_PACKETS {
                        let k = choose|k: int|
                            0 <= k <= BINARY_MAX_PENDING_PACKETS && k < packets.len() && (
                            #[trigger] packets[k]) == opening;
                        assert(k < earlier.len());
                        assert(earlier[k] == opening);
                    }
                }
                assert(state.processed(packet).0 =~= (FountainView {
                    pending: packets,
                    ..start
                }));
            }
        }
    }
}

/// Every repair packet of the list belongs to a window.
proof fn lemma_repair_listed(
    header: FountainHeaderView,
    encoded: Seq<u8>,
    windows: nat,
    packet: Seq<u8>,
)
    requires
        repair_packets_below(header, encoded, windows).contains(packet),
    ensures
        exists|w: nat, r: nat|
            w < windows && packet == #[trigger] fountain_repair_packet(header, encoded, w, r),
    decreases windows,
{
    let list = repair_packets_below(header, encoded, windows);
    let at = choose|at: int| 0 <= at < list.len() && list[at] == packet;
    let last = (windows - 1) as nat;
    let before = repair_packets_below(header, encoded, last);
    if at < before.len() {
        assert(before[at] == packet);
        lemma_repair_listed(header, encoded, last, packet);
        let (w, r) = choose|w: nat, r: nat|
            w < last && packet == #[trigger] fountain_repair_packet(header, encoded, w, r);
        assert(w < windows && packet == fountain_repair_packet(header, encoded, w, r));
    } else {
        let r = (at - before.len()) as nat;
        assert(packet == window_repairs(header, encoded, last)[r as int]);
        assert(packet == fountain_repair_packet(header, encoded, last, r));
    }
}

proof fn lemma_listed(header: FountainHeaderView, encoded: Seq<u8>, packet: Seq<u8>)
    requires
        header.acceptable(),
        fountain_packets(header, encoded).contains(packet),
    ensures
        packet == fountain_header_bytes(header) || is_symbol_of(header, encoded, packet),
{
    let all = fountain_packets(header, encoded);
    let at = choose|at: int| 0 <= at < all.len() && all[at] == packet;
    let n = header.file.data_packets;
    if 1 <= at <= n {
        let i = (at - 1) as usize;
        assert(packet == fountain_data_packet(header, encoded, i as nat));
    } else if at > n {
        let windows = window_count(n);
        let repairs = repair_packets_below(header, encoded, windows);
        assert(repairs[at - 1 - n] == packet);
        lemma_repair_listed(header, encoded, windows, packet);
        let (w, r) = choose|w: nat, r: nat|
            w < windows && packet == #[trigger] fountain_repair_packet(header, encoded, w, r);
        let v = w as usize;
        assert(v < windows && packet == fountain_repair_packet(header, encoded, v as nat, r));
    }
}

/// A receiver on course shows every chunk that came.
#[verifier::rlimit(60)]
proof fn lemma_shown(
    state: FountainView,
    header: FountainHeaderView,
    encoded: Seq<u8>,
    seen: Seq<Seq<u8>>,
    index: usize,
)
    requires
        on_course(state, header, encoded, seen),
        index < header.file.data_packets,
        seen.contains(fountain_data_packet(header, encoded, index as nat)),
    ensures
        state.present()[index as int],
{
    reveal(on_course);
    let packet = fountain_data_packet(header, encoded, index as nat);
    let k = choose|k: int| 0 <= k < seen.len() && seen[k] == packet;
    lemma_fountain_data_read(
        header.file.checksum,
        index as nat,
        piece(encoded, header.file.chunk_size, index as nat),
    );
    assert(noted(state, seen[k]));
    assert(key_of(packet) == Some(data_key(index)));
    assert(chunk_at(state.windows, index as nat) is Some);
}

/// A receiver on course is complete exactly if what came is enough.
#[verifier::rlimit(60)]
proof fn lemma_complete(
    state: FountainView,
    header: FountainHeaderView,
    encoded: Seq<u8>,
    seen: Seq<Seq<u8>>,
)
    requires
        on_course(state, header, encoded, seen),
        header.file.compressed_size == encoded.len(),
    ensures
        state.complete <==> fountain_enough(header, seen),
{
    reveal(on_course);
    let total = header.file.data_packets;
    if fountain_enough(header, seen) {
        assert forall|i: nat| i < total implies (#[trigger] chunk_at(state.windows, i)) is Some by {
            let w = (i / FOUNTAIN_WINDOW_SIZE as nat) as usize;
            lemma_chunk_at(state, header, i);
            lemma_window_source(header, encoded, w as nat);
            let window = state.window_at(w);
            assert(in_shape(
                window,
                window_source(encoded, header.file.chunk_size, w as nat),
                header.file.chunk_size,
                masks_for(seen, w as nat),
            ));
            law_determined_masks_fill_the_basis(window, masks_for(seen, w as nat));
            law_full_basis_solves_all(window);
        }
    }
    if all_known(state.windows, total) {
        assert forall|window: nat| window < window_count(total) implies determined(
            #[trigger] masks_for(seen, window),
            window_width(total, window),
        ) by {
            let w = window as usize;
            lemma_window_source(header, encoded, window);
            let view = state.window_at(w);
            assert(in_shape(
                view,
                window_source(encoded, header.file.chunk_size, w as nat),
                header.file.chunk_size,
                masks_for(seen, w as nat),
            ));
            assert forall|p: int| 0 <= p < view.basis.len() implies (#[trigger] view.basis[p])
                is Some by {
                let i = (window * FOUNTAIN_WINDOW_SIZE + p) as nat;
                assert(i / 32 == window && i % 32 == p);
                lemma_chunk_at(state, header, i);
                assert(chunk_at(state.windows, i) is Some);
                assert(view.chunks[p] is Some);
            }
            law_full_basis_means_determined(view, masks_for(seen, w as nat));
        }
    }
}

#[verifier::rlimit(60)]
proof fn lemma_delivery(
    header: FountainHeaderView,
    encoded: Seq<u8>,
    file: Seq<u8>,
    packets: Seq<Seq<u8>>,
)
    requires
        header.acceptable(),
        forall|k: int|
            0 <= k < packets.len() ==> fountain_packets(header, encoded).contains(
                #[trigger] packets[k],
            ),
        exists|k: int|
            0 <= k <= BINARY_MAX_PENDING_PACKETS && k < packets.len() && (#[trigger] packets[k])
                == fountain_header_bytes(header),
        header.file.describes(encoded, file),
    ensures
        exactly_solved(
            header,
            encoded,
            file,
            packets,
            fountain_run(FountainView::empty(), packets),
            fountain_files(FountainView::empty(), packets),
        ),
{
    let opening = fountain_header_bytes(header);
    assert forall|k: int| 0 <= k < packets.len() implies (#[trigger] packets[k]) == opening
        || is_symbol_of(header, encoded, packets[k]) by {
        lemma_listed(header, encoded, packets[k]);
    }
    lemma_delivered(header, encoded, file, packets);
    assert(packets.contains(opening));
    let state = fountain_run(FountainView::empty(), packets);
    lemma_quiet(state, header, encoded, packets);
    lemma_complete(state, header, encoded, packets);
    assert forall|i: usize|
        i < header.file.data_packets && packets.contains(
            #[trigger] fountain_data_packet(header, encoded, i as nat),
        ) implies state.present()[i as int] by {
        lemma_shown(state, header, encoded, packets, i);
    }
}

/// Whether a receiver shows every chunk that came with `packets`, is complete
/// exactly if they are enough, and has then handed out the file once, and
/// otherwise nothing.
pub open spec fn exactly_solved(
    header: FountainHeaderView,
    encoded: Seq<u8>,
    file: Seq<u8>,
    packets: Seq<Seq<u8>>,
    state: FountainView,
    files: Seq<Seq<u8>>,
) -> bool {
    &&& state.header == Some(header)
    &&& forall|i: usize|
        i < header.file.data_packets && packets.contains(
            #[trigger] fountain_data_packet(header, encoded, i as nat),
        ) ==> state.present()[i as int]
    &&& state.complete <==> fountain_enough(header, packets)
    &&& files == (if fountain_enough(header, packets) {
        seq![file]
    } else {
        Seq::empty()
    })
}

/// What a receiver takes into account of a series of packets whose first header
/// is at `first`: of the packets before the header, only as many as it has room
/// for.
pub open spec fn fountain_remembered(packets: Seq<Seq<u8>>, first: int) -> Seq<Seq<u8>> {
    if first <= BINARY_MAX_PENDING_PACKETS {
        packets
    } else {
        packets.take(BINARY_MAX_PENDING_PACKETS as int) + packets.skip(first)
    }
}

proof fn lemma_run_append(state: FountainView, a: Seq<Seq<u8>>, b: Seq<Seq<u8>>)
    ensures
        fountain_run(state, a + b) == fountain_run(fountain_run(state, a), b),
        fountain_files(state, a + b) == fountain_files(state, a) + fountain_files(
            fountain_run(state, a),
            b,
        ),
    decreases b.len(),
{
    if b.len() == 0 {
        assert(a + b =~= a);
        assert(fountain_files(state, a) + Seq::<Seq<u8>>::empty() =~= fountain_files(state, a));
    } else {
        lemma_run_append(state, a, b.drop_last());
        assert((a + b).drop_last() =~= a + b.drop_last());
        let middle = fountain_run(state, a);
        assert(fountain_files(state, a + b) =~= fountain_files(state, a) + fountain_files(middle, b));
    }
}

/// Before the header, packets wait as long as there is room.
proof fn lemma_wait(header: FountainHeaderView, encoded: Seq<u8>, packets: Seq<Seq<u8>>)
    requires
        header.acceptable(),
        header.file.compressed_size == encoded.len(),
        forall|k: int|
            0 <= k < packets.len() ==> is_symbol_of(header, encoded, #[trigger] packets[k]),
    ensures
        fountain_run(FountainView::empty(), packets) == (FountainView {
            pending: packets.take(
                if packets.len() < BINARY_MAX_PENDING_PACKETS {
                    packets.len() as int
                } else {
                    BINARY_MAX_PENDING_PACKETS as int
                },
            ),
            ..FountainView::empty()
        }),
        fountain_files(FountainView::empty(), packets) == Seq::<Seq<u8>>::empty(),
    decreases packets.len(),
{
    let start = FountainView::empty();
    if packets.len() == 0 {
        assert(packets.take(0) =~= start.pending);
    } else {
        let earlier = packets.drop_last();
        assert forall|k: int| 0 <= k < earlier.len() implies is_symbol_of(
            header,
            encoded,
            #[trigger] earlier[k],
        ) by {
            assert(earlier[k] == packets[k]);
        }
        lemma_wait(header, encoded, earlier);
        assert(is_symbol_of(header, encoded, packets[packets.len() - 1]));
        lemma_symbol(FountainView::begun(header), header, encoded, packets.last());
        let state = fountain_run(start, earlier);
        assert(state.processed(packets.last()) == (
            state.waiting(packets.last()),
            None::<Seq<u8>>,
        ));
        let room = if packets.len() < BINARY_MAX_PENDING_PACKETS {
            packets.len() as int
        } else {
            BINARY_MAX_PENDING_PACKETS as int
        };
        assert(state.waiting(packets.last()).pending =~= packets.take(room));
    }
}

/// Whatever packets of a transfer arrive, in whatever order and however often, a
/// fresh receiver shows every chunk that came, of the packets that it takes into
/// account. Once they leave nothing open in any window it has handed out the
/// file, once; until then it hands out nothing. The header may come late: the
/// packets before it count as far as the receiver has room for them.
#[verifier::rlimit(60)]
pub proof fn law_fountain_delivery(
    header: FountainHeaderView,
    encoded: Seq<u8>,
    file: Seq<u8>,
    packets: Seq<Seq<u8>>,
    first: int,
)
    requires
        header.acceptable(),
        forall|k: int|
            0 <= k < packets.len() ==> fountain_packets(header, encoded).contains(
                #[trigger] packets[k],
            ),
        0 <= first < packets.len(),
        packets[first] == fountain_header_bytes(header),
        forall|k: int| 0 <= k < first ==> #[trigger] packets[k] != fountain_header_bytes(header),
    ensures
        header.file.describes(encoded, file) ==> exactly_solved(
            header,
            encoded,
            file,
            fountain_remembered(packets, first),
            fountain_run(FountainView::empty(), packets),
            fountain_files(FountainView::empty(), packets),
        ),
{
    if header.file.describes(encoded, file) {
        let start = FountainView::empty();
        let opening = fountain_header_bytes(header);
        let kept = fountain_remembered(packets, first);
        if first <= BINARY_MAX_PENDING_PACKETS {
            lemma_delivery(header, encoded, file, packets);
        } else {
            let waiting = packets.take(first);
            let room = packets.take(BINARY_MAX_PENDING_PACKETS as int);
            let rest = packets.skip(first);
            assert(packets =~= waiting + rest);
            assert forall|k: int| 0 <= k < first implies is_symbol_of(
                header,
                encoded,
                #[trigger] packets[k],
            ) by {
                lemma_listed(header, encoded, packets[k]);
            }
            assert forall|k: int| 0 <= k < waiting.len() implies is_symbol_of(
                header,
                encoded,
                #[trigger] waiting[k],
            ) by {
                assert(waiting[k] == packets[k]);
            }
            assert forall|k: int| 0 <= k < room.len() implies is_symbol_of(
                header,
                encoded,
                #[trigger] room[k],
            ) by {
                assert(room[k] == packets[k]);
            }
            lemma_wait(header, encoded, waiting);
            lemma_wait(header, encoded, room);
            assert(waiting.take(BINARY_MAX_PENDING_PACKETS as int) =~= room);
            assert(room.take(BINARY_MAX_PENDING_PACKETS as int) =~= room);
            lemma_run_append(start, waiting, rest);
            lemma_run_append(start, room, rest);
            assert(kept == room + rest);
            assert forall|k: int| 0 <= k < kept.len() implies fountain_packets(
                header,
                encoded,
            ).contains(#[trigger] kept[k]) by {
                if k < room.len() {
                    assert(kept[k] == packets[k]);
                } else {
                    assert(kept[k] == packets[first + k - room.len()]);
                }
            }
            assert(kept[BINARY_MAX_PENDING_PACKETS as int] == opening);
            lemma_delivery(header, encoded, file, kept);
        }
    }
}

/// The header and all data packets are enough, without any repair packet.
pub proof fn law_fountain_data_is_enough(
    header: FountainHeaderView,
    encoded: Seq<u8>,
    packets: Seq<Seq<u8>>,
)
    requires
        header.acceptable(),
        header.file.compressed_size == encoded.len(),
        forall|i: usize|
            i < header.file.data_packets ==> packets.contains(
                #[trigger] fountain_data_packet(header, encoded, i as nat),
            ),
    ensures
        fountain_enough(header, packets),
{
    let total = header.file.data_packets;
    assert forall|window: nat| window < window_count(total) implies determined(
        #[trigger] masks_for(packets, window),
        window_width(total, window),
    ) by {
        lemma_window_source(header, encoded, window);
        let width = window_width(total, window);
        assert forall|l: nat| l < width implies #[trigger] masks_for(packets, window).contains(
            1u32 << (l as u32),
        ) by {
            let i = (window * FOUNTAIN_WINDOW_SIZE + l) as usize;
            lemma_data_packet(header, encoded, i);
            let packet = fountain_data_packet(header, encoded, i as nat);
            assert(packets.contains(packet));
            let k = choose|k: int| 0 <= k < packets.len() && packets[k] == packet;
            assert(i as nat / 32 == window && i as nat % 32 == l);
            assert(equation_of(packets[k]) == Some((window, 1u32 << (l as u32))));
        }
        law_single_masks_determine(masks_for(packets, window), width);
    }
}

/// There are as many repair packets as the header announces.
pub proof fn law_repairs_are_as_announced(
    header: FountainHeaderView,
    encoded: Seq<u8>,
    windows: nat,
)
    ensures
        repair_packets_below(header, encoded, windows).len() == repairs_below(
            header.file.data_packets,
            header.overhead_percent,
            windows,
        ),
    decreases windows,
{
    if windows > 0 {
        law_repairs_are_as_announced(header, encoded, (windows - 1) as nat);
    }
}

/// A file is handed out only if it has the length that the header announced, and if
/// the hash and the digest of the name followed by the file are those that it
/// announced.
pub proof fn law_fountain_files_are_genuine(state: FountainView, packet: Seq<u8>)
    requires
        state.wf(),
    ensures
        state.processed(packet).1 matches Some(file) ==> {
            let after = state.processed(packet).0;
            &&& after.complete
            &&& after.header matches Some(header) && {
                &&& header.file.genuine(file)
                &&& file.len() == header.file.file_size
                &&& fnv1a(encode_utf8(header.file.filename) + file) == header.file.checksum
                &&& sha256(encode_utf8(header.file.filename) + file) == header.file.digest
            }
        },
{
    if let Some(header) = parsed_fountain_header(packet) {
        lemma_replayed_genuine(FountainView::begun(header), header, state.pending);
    }
}

#[verifier::rlimit(60)]
proof fn lemma_replayed_genuine(
    state: FountainView,
    header: FountainHeaderView,
    list: Seq<Seq<u8>>,
)
    requires
        state.header == Some(header),
    ensures
        state.replayed(list).0.header == Some(header),
        state.replayed(list).1 matches Some(file) ==> state.replayed(list).0.complete
            && header.file.genuine(file),
    decreases list.len(),
{
    if list.len() > 0 {
        lemma_replayed_genuine(state, header, list.drop_last());
    }
}

/// Once the file is handed out, nothing more is, as long as the transfer stays
/// the same.
#[verifier::rlimit(60)]
pub proof fn law_fountain_complete_is_silent(state: FountainView, packet: Seq<u8>)
    requires
        state.wf(),
        state.complete,
        parsed_fountain_header(packet) matches Some(header) ==> header.file.checksum
            == state.header->0.file.checksum,
    ensures
        state.processed(packet).1 is None,
        state.processed(packet).0.complete,
        state.processed(packet).0.header == state.header,
{
}

/// A packet of another transfer changes nothing once a header is there.
pub proof fn law_fountain_foreign_packets_change_nothing(state: FountainView, packet: Seq<u8>)
    requires
        state.wf(),
        state.header is Some,
        !is_fountain_header(packet),
        is_fountain_data(packet) || is_fountain_repair(packet) ==> u64_at(packet, 4)
            != state.header->0.file.checksum,
    ensures
        state.processed(packet) == (state, None::<Seq<u8>>),
{
}

/// A packet of the transfer that came before is discarded when it comes again.
pub proof fn law_fountain_duplicates_change_nothing(
    header: FountainHeaderView,
    encoded: Seq<u8>,
    file: Seq<u8>,
    packets: Seq<Seq<u8>>,
    again: int,
)
    requires
        header.acceptable(),
        forall|k: int|
            0 <= k < packets.len() ==> fountain_packets(header, encoded).contains(
                #[trigger] packets[k],
            ),
        exists|k: int|
            0 <= k <= BINARY_MAX_PENDING_PACKETS && k < packets.len() && (#[trigger] packets[k])
                == fountain_header_bytes(header),
        0 <= again < packets.len(),
    ensures
        header.file.describes(encoded, file) ==> ({
            let before = fountain_run(FountainView::empty(), packets);
            before.processed(packets[again]) == (before, None::<Seq<u8>>)
        }),
{
    if header.file.describes(encoded, file) {
        let opening = fountain_header_bytes(header);
        assert forall|k: int| 0 <= k < packets.len() implies (#[trigger] packets[k]) == opening
            || is_symbol_of(header, encoded, packets[k]) by {
            lemma_listed(header, encoded, packets[k]);
        }
        lemma_delivered(header, encoded, file, packets);
        assert(packets.contains(opening));
        let state = fountain_run(FountainView::empty(), packets);
        let packet = packets[again];
        lemma_quiet(state, header, encoded, packets);
        if packet != opening {
            reveal(on_course);
            lemma_symbol(state, header, encoded, packet);
            assert(noted(state, packet));
        }
    }
}

/// A packet that was taken in is discarded ever after, in whatever state the
/// receiver is then, as long as the transfer stays the same.
pub proof fn law_fountain_seen_packets_are_discarded(state: FountainView, packet: Seq<u8>)
    requires
        state.wf(),
        state.header is Some,
        key_of(packet) matches Some(key) && state.seen.contains(key),
    ensures
        state.processed(packet) == (state, None::<Seq<u8>>),
{
}

/// A packet that comes twice in a row, once a header is there, has no effect the
/// second time, whatever it carries.
pub proof fn law_fountain_repeats_change_nothing(state: FountainView, packet: Seq<u8>)
    requires
        state.wf(),
        state.header is Some,
        !is_fountain_header(packet),
    ensures
        state.processed(packet).0.processed(packet) == (
            state.processed(packet).0,
            None::<Seq<u8>>,
        ),
{
}

/// A chunk that comes is shown as received from then on, whatever came before:
/// in the packet map, not among the missing ranges, and in the progress.
#[verifier::rlimit(60)]
pub proof fn law_fountain_arrived_chunks_are_shown(
    state: FountainView,
    header: FountainHeaderView,
    packet: Seq<u8>,
)
    requires
        state.wf(),
        state.header == Some(header),
        is_fountain_data(packet),
        u64_at(packet, 4) == header.file.checksum,
        u32_at(packet, 12) < header.file.data_packets,
        packet.len() == FOUNTAIN_DATA_FIXED_BYTES + header.file.expected_len(u32_at(packet, 12)),
    ensures
        ({
            let after = state.processed(packet).0;
            let index = u32_at(packet, 12);
            &&& after.present()[index as int]
            &&& !in_gaps(gaps(after.present(), 0), index)
            &&& count_set(after.present()) >= count_set(state.present()) + (
            if state.present()[index as int] {
                0nat
            } else {
                1nat
            })
        }),
{
    let after = state.processed(packet).0;
    let index = u32_at(packet, 12);
    assert(!is_fountain_header(packet));
    assert(packet.skip(16).len() == header.file.expected_len(index));
    lemma_accepted_keeps(state, header, packet);
    lemma_stored(state, header, packet);
    if state.seen.contains(data_key(index as usize)) {
        assert(chunk_at(state.windows, index as usize as nat) is Some);
    }
    assert(chunk_at(after.windows, index) is Some);
    law_ranges_list_what_is_missing(after.present());
    assert(after.present()[index as int]);
    assert forall|i: int| 0 <= i < state.present().len() && #[trigger] state.present()[i] implies
        after.present()[i] by {
        assert(chunk_at(state.windows, i as nat) is Some);
    }
    lemma_count_more(state.present(), after.present(), index as int);
}

#[verifier::rlimit(60)]
proof fn lemma_accepted_keeps(state: FountainView, header: FountainHeaderView, packet: Seq<u8>)
    requires
        state.wf(),
        state.header == Some(header),
    ensures
        state.accepted(packet).0.wf(),
        state.accepted(packet).0.header == state.header,
        forall|i: nat|
            i < header.file.data_packets && (#[trigger] chunk_at(state.windows, i)) is Some
                ==> chunk_at(state.accepted(packet).0.windows, i) == chunk_at(state.windows, i),
{
    lemma_stored(state, header, packet);
}

#[verifier::rlimit(60)]
proof fn lemma_replayed_keeps(
    state: FountainView,
    header: FountainHeaderView,
    list: Seq<Seq<u8>>,
)
    requires
        state.wf(),
        state.header == Some(header),
    ensures
        state.replayed(list).0.wf(),
        state.replayed(list).0.header == state.header,
    decreases list.len(),
{
    if list.len() > 0 {
        lemma_replayed_keeps(state, header, list.drop_last());
        lemma_accepted_keeps(state.replayed(list.drop_last()).0, header, list.last());
    }
}

/// Whatever packet comes, a receiver stays well-formed.
pub proof fn law_fountain_stays_well_formed(state: FountainView, packet: Seq<u8>)
    requires
        state.wf(),
    ensures
        state.processed(packet).0.wf(),
{
    if let Some(header) = state.header {
        lemma_accepted_keeps(state, header, packet);
    }
    if let Some(header) = parsed_fountain_header(packet) {
        lemma_replayed_keeps(FountainView::begun(header), header, state.pending);
    }
}

/// No chunk that a receiver knows is lost or changed, unless another transfer is
/// announced.
pub proof fn law_fountain_nothing_is_forgotten(state: FountainView, packet: Seq<u8>)
    requires
        state.wf(),
        state.header is Some,
        parsed_fountain_header(packet) matches Some(header) ==> header.file.checksum
            == state.header->0.file.checksum,
    ensures
        state.processed(packet).0.header == state.header,
        forall|i: nat|
            i < state.total() && (#[trigger] chunk_at(state.windows, i)) is Some ==> chunk_at(
                state.processed(packet).0.windows,
                i,
            ) == chunk_at(state.windows, i),
{
    lemma_accepted_keeps(state, state.header->0, packet);
}

// ---------------------------------------------------------------------------
// Single packets

/// Whether a packet is a data packet of a transfer: it begins as one, names the
/// transfer and one of its chunks, and is as long as that chunk.
pub open spec fn fits_as_data(header: FountainHeaderView, packet: Seq<u8>) -> bool {
    let index = read_be(packet.subrange(12, 16));
    &&& packet.len() >= 16
    &&& packet.take(4) == seq![0x54u8, 0x4eu8, 0x46u8, 1u8]
    &&& read_be(packet.subrange(4, 12)) == header.file.checksum
    &&& index < header.file.data_packets
    &&& packet.len() == 16 + border(
        (index + 1) as nat,
        header.file.chunk_size,
        header.file.compressed_size,
    ) - border(index as nat, header.file.chunk_size, header.file.compressed_size)
}

/// Whether a packet is a repair packet of a transfer: it begins as one, names the
/// transfer, one of its windows and some of the chunks of that window, and is as long
/// as a chunk.
pub open spec fn fits_as_repair(header: FountainHeaderView, packet: Seq<u8>) -> bool {
    let window = read_be(packet.subrange(12, 14));
    let mask = read_be(packet.subrange(14, 18)) as u32;
    &&& packet.len() == 18 + header.file.chunk_size
    &&& packet.take(4) == seq![0x54u8, 0x4eu8, 0x46u8, 2u8]
    &&& read_be(packet.subrange(4, 12)) == header.file.checksum
    &&& window * 32 < header.file.data_packets
    &&& mask != 0
    &&& header.file.data_packets - window * 32 < 32 ==> mask >> ((header.file.data_packets
        - window * 32) as u32) == 0
}

/// What the receiver's own tests on a packet come to.
#[verifier::rlimit(60)]
proof fn lemma_fits(state: FountainView, header: FountainHeaderView, packet: Seq<u8>)
    requires
        state.wf(),
        state.header == Some(header),
    ensures
        fits_as_data(header, packet) ==> is_fountain_data(packet) && u32_at(packet, 12) == read_be(
            packet.subrange(12, 16),
        ),
        fits_as_repair(header, packet) ==> is_fountain_repair(packet) && !is_fountain_data(packet)
            && u16_at(packet, 12) == read_be(packet.subrange(12, 14)) && u32_at(packet, 14)
            == read_be(packet.subrange(14, 18)),
        state.stored_data(packet) is Some <==> fits_as_data(header, packet)
            && !state.seen.contains(data_key(u32_at(packet, 12) as usize)),
        state.stored_repair(packet) is Some <==> fits_as_repair(header, packet)
            && !state.seen.contains(
            symbol_key(
                FOUNTAIN_REPAIR_TYPE,
                u16_at(packet, 12),
                u32_at(packet, 14) as u32,
            ) as u64,
        ),
        fits_as_data(header, packet) || fits_as_repair(header, packet) ==> !is_fountain_header(
            packet,
        ),
        is_fountain_header(packet) ==> !is_fountain_data(packet) && !is_fountain_repair(packet),
{
    if packet.len() >= 4 {
        lemma_first_four(packet, 0x54, 0x4e, 0x46, 1);
        lemma_first_four(packet, 0x54, 0x4e, 0x46, 2);
    }
    if packet.len() >= 16 {
        law_numbers_are_read_from_bytes(packet, 4);
        law_numbers_are_read_from_bytes(packet, 12);
        let index = u32_at(packet, 12);
        let chunk = header.file.chunk_size;
        assert((index + 1) * chunk == index * chunk + chunk) by (nonlinear_arith);
        assert(packet.skip(16).len() == packet.len() - 16);
    }
    if packet.len() >= 18 {
        law_numbers_are_read_from_bytes(packet, 14);
        assert(packet.skip(18).len() == packet.len() - 18);
    }
}

/// A fresh receiver knows nothing, and neither does a fresh window.
pub proof fn law_fountain_fresh_receiver_is_blank(width: nat)
    ensures
        ({
            let fresh = FountainView::empty();
            &&& fresh.header is None
            &&& fresh.windows == Map::<usize, WindowView>::empty()
            &&& fresh.pending == Seq::<Seq<u8>>::empty()
            &&& fresh.seen == Set::<u64>::empty()
            &&& fresh.received == Set::<usize>::empty()
            &&& fresh.recovered == 0
            &&& !fresh.complete
            &&& fresh.wf()
        }),
        WindowView::empty(width).chunks.len() == width,
        WindowView::empty(width).basis.len() == width,
        forall|i: int|
            0 <= i < width ==> (#[trigger] WindowView::empty(width).chunks[i]) is None
                && WindowView::empty(width).basis[i] is None,
{
}

/// A packet that is no header, and that fits neither as data nor as repair, changes
/// nothing once a header is there.
pub proof fn law_fountain_unfit_packets_change_nothing(
    state: FountainView,
    header: FountainHeaderView,
    packet: Seq<u8>,
)
    requires
        state.wf(),
        state.header == Some(header),
        packet.len() < 4 || packet.take(4) != seq![0x54u8, 0x4eu8, 0x46u8, 0u8],
        !fits_as_data(header, packet),
        !fits_as_repair(header, packet),
    ensures
        state.processed(packet) == (state, None::<Seq<u8>>),
{
    lemma_fits(state, header, packet);
    if packet.len() >= 4 {
        lemma_first_four(packet, 0x54, 0x4e, 0x46, 0);
    }
}

/// A data packet that fits makes its chunk known: the bytes that it carries, and zeros
/// after them. A chunk that was known stays as it was, no other window changes, and
/// the packet counts as one more symbol. If it came before it changes nothing.
#[verifier::rlimit(60)]
pub proof fn law_fountain_data_is_taken_in(
    state: FountainView,
    header: FountainHeaderView,
    packet: Seq<u8>,
)
    requires
        state.wf(),
        state.header == Some(header),
        fits_as_data(header, packet),
    ensures
        ({
            let index = read_be(packet.subrange(12, 16)) as usize;
            let after = state.processed(packet).0;
            let known = chunk_at(state.windows, index as nat);
            let held = if state.windows.contains_key(index / 32) {
                state.windows[index / 32]
            } else {
                WindowView::empty(window_width(header.file.data_packets, (index / 32) as nat))
            };
            let carried = Seq::new(header.file.chunk_size, |at: int| byte_at(packet, 16 + at));
            let equation = EquationView { mask: 1u32 << ((index % 32) as u32), payload: carried };
            &&& !state.seen.contains(data_key(index)) ==> after.windows[index / 32] == held.added(
                equation,
            ).learned((index % 32) as nat, carried).solved()
            &&& state.seen.contains(data_key(index)) ==> state.processed(packet) == (
                state,
                None::<Seq<u8>>,
            )
            &&& known is Some ==> chunk_at(after.windows, index as nat) == known
            &&& known is None ==> {
                let now = chunk_at(after.windows, index as nat);
                &&& now is Some
                &&& now->0.len() == header.file.chunk_size
                &&& forall|at: int|
                    0 <= at < header.file.chunk_size ==> #[trigger] now->0[at] == byte_at(
                        packet,
                        16 + at,
                    )
            }
            &&& forall|w: usize|
                w != index / 32 ==> (#[trigger] after.windows.contains_key(w)
                    == state.windows.contains_key(w)) && after.windows[w] == state.windows[w]
            &&& after.seen == state.seen.insert(data_key(index))
            &&& !state.seen.contains(data_key(index)) ==> after.received == state.received.insert(
                index,
            )
            &&& after.recovered == state.recovered
            &&& after.header == state.header
        }),
{
    lemma_fits(state, header, packet);
    let index = u32_at(packet, 12) as usize;
    let key = data_key(index);
    let window = (index as nat / FOUNTAIN_WINDOW_SIZE as nat) as usize;
    let local = index as nat % FOUNTAIN_WINDOW_SIZE as nat;
    lemma_accepted_keeps(state, header, packet);
    lemma_stored(state, header, packet);
    if state.seen.contains(key) {
        assert(state.seen.insert(key) =~= state.seen);
        assert(chunk_at(state.windows, index as nat) is Some);
    } else {
        let next = state.stored_data(packet)->0;
        let payload = padded(packet.skip(16), header.file.chunk_size);
        let equation = EquationView { mask: 1u32 << (local as u32), payload };
        let before = state.window_at(window);
        assert(index < header.file.data_packets);
        assert(window * 32 <= index);
        assert(local < window_width(header.file.data_packets, window as nat));
        assert(before.wf());
        lemma_added_wf(before, equation);
        let grown = before.added(equation);
        assert(grown.chunks == before.chunks);
        let learned = grown.learned(local, payload);
        assert(learned.wf());
        lemma_solved_keeps(learned);
        let done = learned.solved();
        assert(next.windows[window] == done);
        assert(payload =~= Seq::new(header.file.chunk_size, |at: int| byte_at(packet, 16 + at)));
        assert(window == index / 32 && local == index % 32);
        assert(learned.chunks[local as int] is Some);
        assert(done.chunks[local as int] == learned.chunks[local as int]);
        if chunk_at(state.windows, index as nat) is None {
            assert(before.chunks[local as int] is None);
            assert(chunk_at(next.windows, index as nat) == Some(payload));
            assert forall|at: int| 0 <= at < header.file.chunk_size implies #[trigger] payload[at]
                == byte_at(packet, 16 + at) by {}
        }
    }
}

/// A repair packet that fits and did not come before adds its equation to its window,
/// which then solves what it can. No other window changes, and the packet counts as one
/// more symbol. Chunks of the window that are known now and had not been counted yet
/// count as recovered, and no others.
#[verifier::rlimit(60)]
pub proof fn law_fountain_repair_is_taken_in(
    state: FountainView,
    header: FountainHeaderView,
    packet: Seq<u8>,
)
    requires
        state.wf(),
        state.header == Some(header),
        fits_as_repair(header, packet),
    ensures
        ({
            let window = read_be(packet.subrange(12, 14)) as usize;
            let mask = read_be(packet.subrange(14, 18)) as u32;
            let key = symbol_key(2, window as nat, mask) as u64;
            let after = state.processed(packet).0;
            let held = if state.windows.contains_key(window) {
                state.windows[window]
            } else {
                WindowView::empty(window_width(header.file.data_packets, window as nat))
            };
            let equation = EquationView { mask, payload: packet.skip(18) };
            &&& state.seen.contains(key) ==> state.processed(packet) == (state, None::<Seq<u8>>)
            &&& !state.seen.contains(key) ==> {
                &&& after.windows == state.windows.insert(window, held.added(equation).solved())
                &&& after.seen == state.seen.insert(key)
                &&& forall|i: usize| #[trigger]
                    after.received.contains(i) <==> state.received.contains(i) || (i / 32 == window
                        && i < header.file.data_packets && chunk_at(after.windows, i as nat) is Some)
                &&& after.recovered == state.recovered + after.received.len()
                    - state.received.len()
                &&& after.header == state.header
            }
        }),
{
    lemma_fits(state, header, packet);
    lemma_accepted_keeps(state, header, packet);
    lemma_stored(state, header, packet);
    let window = u16_at(packet, 12) as usize;
    let mask = u32_at(packet, 14) as u32;
    let key = symbol_key(FOUNTAIN_REPAIR_TYPE, window as nat, mask) as u64;
    if !state.seen.contains(key) {
        let next = state.stored_repair(packet)->0;
        let after = state.processed(packet).0;
        let width = window_width(header.file.data_packets, window as nat);
        assert(after == state.accepted(packet).0);
        assert(after.wf());
        assert(after.windows == next.windows && after.received == next.received);
        assert(after.windows.contains_key(window));
        assert(after.windows[window].chunks.len() == width);
        assert forall|i: usize| #[trigger] after.received.contains(i) <==> state.received.contains(
            i,
        ) || (i / 32 == window && i < header.file.data_packets && chunk_at(
            after.windows,
            i as nat,
        ) is Some) by {
            if i / 32 == window {
                assert((i as nat / 32) as usize == window);
                assert(i % 32 < width <==> i < header.file.data_packets);
            }
        }
        assert(state.received.subset_of(after.received));
        vstd::set_lib::lemma_len_subset(state.received, after.received);
    }
}

/// Of a header only what it says counts: one that is read as a header does what that
/// header does in its usual form, whatever follows its last field.
pub proof fn law_fountain_header_does_what_it_says(
    state: FountainView,
    packet: Seq<u8>,
    header: FountainHeaderView,
)
    requires
        parsed_fountain_header(packet) == Some(header),
    ensures
        header.acceptable(),
        state.processed(packet) == state.processed(fountain_header_bytes(header)),
{
    law_fountain_header_round_trip(header);
}

/// A header that cannot be read changes nothing.
pub proof fn law_fountain_unreadable_headers_change_nothing(state: FountainView, packet: Seq<u8>)
    requires
        packet.len() >= 4,
        packet.take(4) == seq![0x54u8, 0x4eu8, 0x46u8, 0u8],
        parsed_fountain_header(packet) is None,
    ensures
        state.processed(packet) == (state, None::<Seq<u8>>),
{
    lemma_first_four(packet, 0x54, 0x4e, 0x46, 0);
}

/// A packet that fits and did not come before brings the file exactly if it was not
/// brought before, all chunks are known then, and what they hold together restores it.
pub proof fn law_fountain_packet_brings_what_all_chunks_hold(
    state: FountainView,
    header: FountainHeaderView,
    packet: Seq<u8>,
    file: Seq<u8>,
)
    requires
        state.wf(),
        state.header == Some(header),
        ({
            ||| fits_as_data(header, packet) && !state.seen.contains(
                data_key(read_be(packet.subrange(12, 16)) as usize),
            )
            ||| fits_as_repair(header, packet) && !state.seen.contains(
                symbol_key(
                    2,
                    read_be(packet.subrange(12, 14)) as nat,
                    read_be(packet.subrange(14, 18)) as u32,
                ) as u64,
            )
        }),
    ensures
        ({
            let (after, handed_out) = state.processed(packet);
            let count = header.file.data_packets;
            let chunks = Seq::new(count, |i: int| chunk_at(after.windows, i as nat)->0);
            handed_out == Some(file) <==> {
                &&& !state.complete
                &&& forall|i: nat| i < count ==> (#[trigger] chunk_at(after.windows, i)) is Some
                &&& header.file.restored(chunks) == Some(file)
            }
        }),
{
    lemma_fits(state, header, packet);
    lemma_accepted_keeps(state, header, packet);
    lemma_stored(state, header, packet);
    let next = state.stored(packet)->0;
    let after = state.processed(packet).0;
    assert(state.stored(packet) is Some);
    assert(after.windows == next.windows);
    let chunks = Seq::new(
        header.file.data_packets,
        |i: int| chunk_at(after.windows, i as nat)->0,
    );
    assert(known_chunks(next.windows, next.total()) =~= chunks);
}

/// A report is true: what is there and what is missing make up all chunks, as many are
/// there as the map shows, and the checksum and the digest read as those announced.
pub proof fn law_fountain_reports_are_true(
    info: FountainReceiverInfo,
    header: FountainHeaderView,
    state: FountainView,
)
    requires
        state.wf(),
        state.header == Some(header),
        info.reports(header, state),
    ensures
        info.strategy@ == seq!['f', 'o', 'u', 'n', 't', 'a', 'i', 'n', '-', 'l', 't'],
        info.overhead_percent == header.overhead_percent,
        info.repair_packets == header.repair_packets,
        info.received_symbols == state.seen.len(),
        info.filename@ == header.file.filename,
        info.total_packets == header.file.data_packets,
        info.file_size == header.file.file_size,
        info.compressed_size == header.file.compressed_size,
        info.complete == state.complete,
        info.recovered_packets == state.recovered,
        info.received_packets == count_set(state.present()),
        info.received_packets + info.missing_packets == info.total_packets,
        info.checksum matches Some(text) && text@.len() == 16 && is_hex(text@) && read_hex(text@)
            == header.file.checksum,
        info.sha256 matches Some(text) && text@.len() == 64 && forall|i: int|
            0 <= i < 32 ==> read_hex(#[trigger] text@.subrange(2 * i, 2 * i + 2))
                == header.file.digest[i],
        header.file.codec == 1 <==> info.codec@ == seq!['d', 'e', 'f', 'l', 'a', 't', 'e'],
        header.file.codec == 0 <==> info.codec@ == seq!['r', 'a', 'w'],
{
    reveal_strlit("fountain-lt");
    assert("fountain-lt"@ =~= seq!['f', 'o', 'u', 'n', 't', 'a', 'i', 'n', '-', 'l', 't']);
    law_checksum_notation(header.file.checksum);
    law_digest_notation(header.file.digest);
    law_codecs_have_names(header.file.codec);
    assert(seq!['r', 'a', 'w'].len() != seq!['d', 'e', 'f', 'l', 'a', 't', 'e'].len());
}

/// A chunk is known where its window knows it, and the map, in as many places as there
/// are chunks, shows exactly that.
pub proof fn law_fountain_map_shows_what_is_known(state: FountainView, index: nat)
    requires
        state.wf(),
        state.header is Some,
        index < state.header->0.file.data_packets,
    ensures
        state.present().len() == state.header->0.file.data_packets,
        state.present()[index as int] <==> {
            let window = (index / 32) as usize;
            &&& state.windows.contains_key(window)
            &&& state.windows[window].chunks[(index % 32) as int] is Some
        },
{
    let window = (index / 32) as usize;
    if state.windows.contains_key(window) {
        assert(index % 32 < window_width(state.header->0.file.data_packets, window as nat));
    }
}

/// A file is handed out exactly when the receiver becomes complete.
#[verifier::rlimit(60)]
pub proof fn law_fountain_hands_out_when_complete(state: FountainView, packet: Seq<u8>)
    requires
        state.wf(),
    ensures
        state.processed(packet).1 is Some <==> state.processed(packet).0.complete
            && !state.complete,
{
    if let Some(header) = parsed_fountain_header(packet) {
        lemma_replayed_completes(FountainView::begun(header), header, state.pending);
        if state.header is Some {
            let fresh = FountainView::begun(header);
            assert(state.pending =~= Seq::<Seq<u8>>::empty());
            assert(chunk_at(fresh.windows, 0) is None);
        }
    }
}

#[verifier::rlimit(60)]
proof fn lemma_replayed_completes(
    state: FountainView,
    header: FountainHeaderView,
    list: Seq<Seq<u8>>,
)
    requires
        state.header == Some(header),
        !state.complete,
    ensures
        state.replayed(list).1 is Some <==> state.replayed(list).0.complete,
    decreases list.len(),
{
    if list.len() > 0 {
        lemma_replayed_completes(state, header, list.drop_last());
    }
}

// ---------------------------------------------------------------------------
// One transfer after another

/// The header of another transfer starts anew, whether the present one is complete or
/// not: nothing of it is left, and nothing is handed out yet. That is what the header
/// makes of a fresh receiver.
pub proof fn law_fountain_another_header_starts_anew(
    state: FountainView,
    header: FountainHeaderView,
)
    requires
        state.wf(),
        state.header is Some,
        header.acceptable(),
        state.header->0.file.checksum != header.file.checksum,
    ensures
        ({
            let (after, handed_out) = state.processed(fountain_header_bytes(header));
            &&& after.header == Some(header)
            &&& after.windows == Map::<usize, WindowView>::empty()
            &&& after.pending == Seq::<Seq<u8>>::empty()
            &&& after.seen == Set::<u64>::empty()
            &&& after.received == Set::<usize>::empty()
            &&& after.recovered == 0
            &&& !after.complete
            &&& handed_out is None
        }),
        state.processed(fountain_header_bytes(header)) == FountainView::empty().processed(
            fountain_header_bytes(header),
        ),
{
    law_fountain_header_round_trip(header);
    let fresh = FountainView::begun(header);
    assert(state.pending =~= Seq::<Seq<u8>>::empty());
    assert(chunk_at(fresh.windows, 0) is None);
    assert(fresh.replayed(Seq::empty()) == (fresh, None::<Seq<u8>>));
}

/// The header of the present transfer, seen again, changes nothing.
pub proof fn law_fountain_same_header_changes_nothing(
    state: FountainView,
    header: FountainHeaderView,
)
    requires
        state.wf(),
        state.header is Some,
        header.acceptable(),
        state.header->0.file.checksum == header.file.checksum,
    ensures
        state.at_rest() ==> state.processed(fountain_header_bytes(header)) == (
            state,
            None::<Seq<u8>>,
        ),
{
    law_fountain_header_round_trip(header);
}

/// Before any header, data and repair packets and packets of other kinds wait, up to
/// ten thousand of them. Packets of this transport that are too short or of no known
/// kind are dropped.
pub proof fn law_fountain_packets_wait_for_a_header(state: FountainView, packet: Seq<u8>)
    requires
        state.wf(),
        state.header is None,
        packet.len() < 4 || packet.take(4) != seq![0x54u8, 0x4eu8, 0x46u8, 0u8],
    ensures
        ({
            let own = packet.len() >= 4 && packet.take(3) == seq![0x54u8, 0x4eu8, 0x46u8];
            let whole = (packet[3] == 1 && packet.len() >= 16) || (packet[3] == 2 && packet.len()
                >= 18);
            let (after, handed_out) = state.processed(packet);
            &&& handed_out is None
            &&& after.header is None
            &&& (!own || whole) && state.pending.len() < 10_000 ==> after.pending
                == state.pending.push(packet)
            &&& own && !whole || state.pending.len() >= 10_000 ==> after.pending == state.pending
        }),
{
    if packet.len() >= 4 {
        lemma_first_four(packet, 0x54, 0x4e, 0x46, 0);
    }
}

/// A header that comes late finds what waited for it: the receiver is then as if the
/// header had come first and the packets that waited after it, and hands out the file
/// if one comes out of that.
pub proof fn law_fountain_late_header_finds_what_waited(
    state: FountainView,
    header: FountainHeaderView,
)
    requires
        state.wf(),
        state.header is None,
        header.acceptable(),
    ensures
        ({
            let packets = seq![fountain_header_bytes(header)] + state.pending;
            let files = fountain_files(FountainView::empty(), packets);
            &&& state.processed(fountain_header_bytes(header)).0 == fountain_run(
                FountainView::empty(),
                packets,
            )
            &&& state.processed(fountain_header_bytes(header)).1 == (if files.len() > 0 {
                Some(files.last())
            } else {
                None
            })
        }),
{
    law_fountain_header_round_trip(header);
    let opening = fountain_header_bytes(header);
    let fresh = FountainView::begun(header);
    let head = seq![opening];
    assert(head.drop_last() =~= Seq::<Seq<u8>>::empty());
    reveal_with_fuel(fountain_run, 2);
    reveal_with_fuel(fountain_files, 2);
    assert(FountainView::empty().processed(opening) == (fresh, None::<Seq<u8>>)) by {
        assert(chunk_at(fresh.windows, 0) is None);
        assert(fresh.replayed(Seq::empty()) == (fresh, None::<Seq<u8>>));
    }
    assert(fountain_run(FountainView::empty(), head) == fresh);
    assert(fountain_files(FountainView::empty(), head) =~= Seq::<Seq<u8>>::empty());
    lemma_run_append(FountainView::empty(), head, state.pending);
    lemma_replayed_runs(fresh, header, state.pending);
    assert(Seq::<Seq<u8>>::empty() + fountain_files(fresh, state.pending) =~= fountain_files(
        fresh,
        state.pending,
    ));
    assert(fresh.at_rest()) by {
        assert(chunk_at(fresh.windows, 0) is None);
    }
    lemma_replayed_at_rest(fresh, state.pending);
}

/// Packets that waited are taken in as if they came now.
#[verifier::rlimit(60)]
proof fn lemma_replayed_runs(state: FountainView, header: FountainHeaderView, list: Seq<Seq<u8>>)
    requires
        state.header == Some(header),
        forall|i: int| 0 <= i < list.len() ==> !is_fountain_header(#[trigger] list[i]),
    ensures
        state.replayed(list).0 == fountain_run(state, list),
        state.replayed(list).0.header == Some(header),
        state.replayed(list).1 == (if fountain_files(state, list).len() > 0 {
            Some(fountain_files(state, list).last())
        } else {
            None
        }),
    decreases list.len(),
{
    if list.len() > 0 {
        let earlier = list.drop_last();
        assert forall|i: int| 0 <= i < earlier.len() implies !is_fountain_header(
            #[trigger] earlier[i],
        ) by {
            assert(earlier[i] == list[i]);
        }
        lemma_replayed_runs(state, header, earlier);
        assert(!is_fountain_header(list[list.len() - 1]));
        let before = fountain_run(state, earlier);
        assert(before.processed(list.last()) == before.accepted(list.last()));
    }
}

/// Delivery does not depend on what a receiver did before. Where it holds another
/// transfer, finished or not, packets that come before the new header change nothing,
/// and from that header on it does what a fresh receiver does: it shows every chunk
/// that came, and once nothing is left open it has handed out the file, once.
#[verifier::rlimit(60)]
pub proof fn law_fountain_delivery_from_any_state(
    state: FountainView,
    header: FountainHeaderView,
    encoded: Seq<u8>,
    file: Seq<u8>,
    packets: Seq<Seq<u8>>,
    first: int,
)
    requires
        state.wf(),
        state.header is Some,
        state.header->0.file.checksum != header.file.checksum,
        header.acceptable(),
        header.file.compressed_size == encoded.len(),
        forall|k: int|
            0 <= k < packets.len() ==> fountain_packets(header, encoded).contains(
                #[trigger] packets[k],
            ),
        0 <= first < packets.len(),
        packets[first] == fountain_header_bytes(header),
        forall|k: int| 0 <= k < first ==> #[trigger] packets[k] != fountain_header_bytes(header),
    ensures
        fountain_run(state, packets) == fountain_run(FountainView::empty(), packets.skip(first)),
        fountain_files(state, packets) == fountain_files(
            FountainView::empty(),
            packets.skip(first),
        ),
        header.file.describes(encoded, file) ==> exactly_solved(
            header,
            encoded,
            file,
            packets.skip(first),
            fountain_run(state, packets),
            fountain_files(state, packets),
        ),
{
    let opening = fountain_header_bytes(header);
    let before = packets.take(first);
    let rest = packets.skip(first);
    assert(packets =~= before + rest);
    lemma_run_append(state, before, rest);
    assert forall|k: int| 0 <= k < before.len() implies is_symbol_of(
        header,
        encoded,
        #[trigger] before[k],
    ) by {
        assert(before[k] == packets[k]);
        lemma_listed(header, encoded, packets[k]);
    }
    lemma_foreign_run(state, header, encoded, before);
    assert(Seq::<Seq<u8>>::empty() + fountain_files(state, rest) =~= fountain_files(state, rest));
    let head = seq![opening];
    let tail = rest.skip(1);
    assert(rest =~= head + tail);
    lemma_run_append(state, head, tail);
    lemma_run_append(FountainView::empty(), head, tail);
    assert(head.drop_last() =~= Seq::<Seq<u8>>::empty());
    law_fountain_another_header_starts_anew(state, header);
    reveal_with_fuel(fountain_run, 2);
    reveal_with_fuel(fountain_files, 2);
    assert(fountain_run(state, head) == fountain_run(FountainView::empty(), head));
    assert(fountain_files(state, head) == fountain_files(FountainView::empty(), head));
    assert forall|k: int| 0 <= k < rest.len() implies fountain_packets(header, encoded).contains(
        #[trigger] rest[k],
    ) by {
        assert(rest[k] == packets[first + k]);
    }
    assert(rest[0] == opening);
    law_fountain_delivery(header, encoded, file, rest, 0);
}

/// Packets of another transfer than the present one change nothing.
proof fn lemma_foreign_run(
    state: FountainView,
    header: FountainHeaderView,
    encoded: Seq<u8>,
    packets: Seq<Seq<u8>>,
)
    requires
        state.wf(),
        state.header is Some,
        state.header->0.file.checksum != header.file.checksum,
        header.acceptable(),
        header.file.compressed_size == encoded.len(),
        forall|k: int|
            0 <= k < packets.len() ==> is_symbol_of(header, encoded, #[trigger] packets[k]),
    ensures
        fountain_run(state, packets) == state,
        fountain_files(state, packets) == Seq::<Seq<u8>>::empty(),
    decreases packets.len(),
{
    if packets.len() > 0 {
        let earlier = packets.drop_last();
        assert forall|k: int| 0 <= k < earlier.len() implies is_symbol_of(
            header,
            encoded,
            #[trigger] earlier[k],
        ) by {
            assert(earlier[k] == packets[k]);
        }
        lemma_foreign_run(state, header, encoded, earlier);
        assert(is_symbol_of(header, encoded, packets[packets.len() - 1]));
        lemma_symbol(FountainView::begun(header), header, encoded, packets.last());
        lemma_symbol_checksum(header, encoded, packets.last());
        law_fountain_foreign_packets_change_nothing(state, packets.last());
    }
}

/// A packet of a transfer names it.
#[verifier::rlimit(60)]
proof fn lemma_symbol_checksum(header: FountainHeaderView, encoded: Seq<u8>, packet: Seq<u8>)
    requires
        header.acceptable(),
        is_symbol_of(header, encoded, packet),
    ensures
        u64_at(packet, 4) == header.file.checksum,
{
    let sum = header.file.checksum;
    if exists|i: usize|
        i < header.file.data_packets && packet == #[trigger] fountain_data_packet(
            header,
            encoded,
            i as nat,
        ) {
        let i = choose|i: usize|
            i < header.file.data_packets && packet == #[trigger] fountain_data_packet(
                header,
                encoded,
                i as nat,
            );
        lemma_fountain_data_read(sum, i as nat, piece(encoded, header.file.chunk_size, i as nat));
    } else {
        let (w, r) = choose|w: usize, r: nat|
            w < window_count(header.file.data_packets) && packet
                == #[trigger] fountain_repair_packet(header, encoded, w as nat, r);
        lemma_repair_names_transfer(header, encoded, w as nat, r);
    }
}

proof fn lemma_repair_names_transfer(
    header: FountainHeaderView,
    encoded: Seq<u8>,
    window: nat,
    repair: nat,
)
    requires
        window < 0x1_0000,
    ensures
        u64_at(fountain_repair_packet(header, encoded, window, repair), 4) == header.file.checksum,
{
    let mask = packet_mask(header, window, repair);
    lemma_fountain_repair_read(
        header.file.checksum,
        window,
        mask,
        mixed(
            window_source(encoded, header.file.chunk_size, window),
            mask,
            0,
            window_width(header.file.data_packets, window),
            header.file.chunk_size,
        ),
    );
}

/// Between packets, an attempt to finish brings nothing new.
pub proof fn law_fountain_is_at_rest_between_packets(state: FountainView, packet: Seq<u8>)
    requires
        state.wf(),
    ensures
        FountainView::empty().at_rest(),
        state.at_rest() ==> state.processed(packet).0.at_rest(),
{
    if state.at_rest() {
        lemma_accepted_at_rest(state, packet);
        if let Some(header) = parsed_fountain_header(packet) {
            let fresh = FountainView::begun(header);
            assert(chunk_at(fresh.windows, 0) is None);
            lemma_replayed_at_rest(fresh, state.pending);
        }
    }
}

#[verifier::rlimit(60)]
proof fn lemma_accepted_at_rest(state: FountainView, packet: Seq<u8>)
    requires
        state.at_rest(),
    ensures
        state.accepted(packet).0.at_rest(),
{
}

#[verifier::rlimit(60)]
proof fn lemma_replayed_at_rest(state: FountainView, list: Seq<Seq<u8>>)
    requires
        state.at_rest(),
    ensures
        state.replayed(list).0.at_rest(),
    decreases list.len(),
{
    if list.len() > 0 {
        lemma_replayed_at_rest(state, list.drop_last());
        lemma_accepted_at_rest(state.replayed(list.drop_last()).0, list.last());
    }
}

} // verus!
