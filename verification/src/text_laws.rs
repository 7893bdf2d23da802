//! What the text transport promises as a whole: whatever the order in which the
//! packets arrive, the receiver hands out the file, once.

use crate::checksum::fnv1a;
use crate::codec::stream_limit;
use crate::chars::fields;
use crate::notation::{
    is_hex, law_checksum_notation, law_fields_split_at_bars, read_hex, with_bars,
};
use crate::store::{
    all_present, count_set, in_order, law_progress_counts_the_map, lemma_bounded_finite,
    lemma_count,
};
use crate::text::{
    data_text, header_text, law_text_data_round_trip, law_text_header_round_trip, lemma_part_count,
    packed_text, parsed_text_data, parsed_text_header, part_count, text_header, text_packets,
    text_sendable, TextDataView, TextHeaderView, DEFAULT_DATA_CHUNK_CHARS, MAX_DATA_CHUNK_CHARS,
    MAX_TOTAL_PACKETS, MIN_DATA_CHUNK_CHARS,
};
use crate::text_receiver::{text_genuine, text_restored, ReceiverInfo, TextView};
use crate::transfer::{joined, lemma_joined_pieces, piece, piece_length, MAX_FILE_BYTES};
use vstd::prelude::*;
use vstd::utf8::*;

verus! {

/// The receiver after a series of packets.
pub open spec fn text_run(state: TextView, packets: Seq<Seq<char>>) -> TextView
    decreases packets.len(),
{
    if packets.len() == 0 {
        state
    } else {
        text_run(state, packets.drop_last()).processed(packets.last()).0
    }
}

/// The files handed out during a series of packets.
pub open spec fn text_files(state: TextView, packets: Seq<Seq<char>>) -> Seq<Seq<u8>>
    decreases packets.len(),
{
    if packets.len() == 0 {
        Seq::empty()
    } else {
        let earlier = text_files(state, packets.drop_last());
        match text_run(state, packets.drop_last()).processed(packets.last()).1 {
            Some(file) => earlier.push(file),
            None => earlier,
        }
    }
}

/// A transfer that a receiver can take in: the header announces the parts of the
/// encoded file.
pub open spec fn text_transfer(header: TextHeaderView, encoded: Seq<char>, chunk: nat) -> bool {
    &&& header.acceptable()
    &&& !header.filename.contains('|')
    &&& 0 < chunk <= MAX_DATA_CHUNK_CHARS
    &&& is_ascii_chars(encoded)
    &&& header.total_packets == part_count(encoded.len(), chunk)
}

/// The data packet at an index.
pub open spec fn part_text(header: TextHeaderView, encoded: Seq<char>, chunk: nat, index: nat) -> Seq<
    char,
> {
    data_text(header.checksum, index, piece(encoded, chunk, index))
}

/// Whether a receiver is well on its way in a transfer: what it holds is what
/// was sent, it holds what `seen` brought and nothing else, and it is complete
/// once nothing is missing.
#[verifier::opaque]
spec fn on_course(
    state: TextView,
    header: TextHeaderView,
    encoded: Seq<char>,
    chunk: nat,
    seen: Seq<Seq<char>>,
) -> bool {
    &&& state.wf()
    &&& state.checksum == Some(header.checksum)
    &&& state.total_packets == header.total_packets
    &&& state.file_size == header.file_size
    &&& state.filename == header.filename
    &&& forall|i: usize| #[trigger]
        state.chunks.contains_key(i) ==> state.chunks[i] == piece(encoded, chunk, i as nat)
            && seen.contains(part_text(header, encoded, chunk, i as nat))
    &&& forall|i: usize|
        i < header.total_packets && seen.contains(
            #[trigger] part_text(header, encoded, chunk, i as nat),
        ) ==> state.chunks.contains_key(i)
    &&& state.complete == all_present(state.chunks.dom(), header.total_packets)
}

/// Whether a receiver has put aside what `seen` brought of a transfer whose
/// header has not come.
#[verifier::opaque]
spec fn put_aside(
    state: TextView,
    header: TextHeaderView,
    encoded: Seq<char>,
    chunk: nat,
    seen: Seq<Seq<char>>,
) -> bool {
    &&& state == (TextView {
        pending: state.pending,
        pending_checksum: state.pending_checksum,
        ..TextView::empty()
    })
    &&& state.pending_checksum is None || state.pending_checksum == Some(header.checksum)
    &&& seen.len() > 0 ==> state.pending_checksum is Some
    &&& forall|i: usize| #[trigger]
        state.pending.contains_key(i) ==> i < header.total_packets && state.pending[i] == piece(
            encoded,
            chunk,
            i as nat,
        ) && seen.contains(part_text(header, encoded, chunk, i as nat))
    &&& forall|i: usize|
        i < header.total_packets && seen.contains(
            #[trigger] part_text(header, encoded, chunk, i as nat),
        ) ==> state.pending.contains_key(i)
}

/// A part is never empty, and is read back from its packet.
proof fn lemma_part_read(header: TextHeaderView, encoded: Seq<char>, chunk: nat, index: usize)
    requires
        text_transfer(header, encoded, chunk),
        index < header.total_packets,
    ensures
        ({
            let packet = part_text(header, encoded, chunk, index as nat);
            let data = parsed_text_data(packet);
            &&& !"METADATA|"@.is_prefix_of(packet)
            &&& data is Some
            &&& data->0.checksum == header.checksum
            &&& data->0.index == index
            &&& data->0.chunk == piece(encoded, chunk, index as nat)
        }),
{
    let part = piece(encoded, chunk, index as nat);
    lemma_part_count(encoded.len(), chunk);
    assert(index as int * chunk < encoded.len());
    assert(part.len() == piece_length(encoded.len(), chunk, index as nat));
    assert(is_ascii_chars(part)) by {
        assert forall|i: int| 0 <= i < part.len() implies '\0' <= #[trigger] part[i] <= '\x7f' by {
            assert(part[i] == encoded[index * chunk + i]);
        }
    }
    is_ascii_chars_encode_utf8(part);
    law_text_data_round_trip(header.checksum, index, part);
}

/// The file that a complete receiver hands out.
proof fn lemma_restored(
    state: TextView,
    header: TextHeaderView,
    encoded: Seq<char>,
    chunk: nat,
    file: Seq<u8>,
)
    requires
        text_transfer(header, encoded, chunk),
        text_restored(encoded, header.filename, header.file_size, header.checksum) == Some(file),
        state.wf(),
        state.checksum == Some(header.checksum),
        state.total_packets == header.total_packets,
        state.file_size == header.file_size,
        state.filename == header.filename,
        !state.complete,
        forall|i: usize| #[trigger]
            state.chunks.contains_key(i) ==> state.chunks[i] == piece(encoded, chunk, i as nat),
    ensures
        state.finished() == (if all_present(state.chunks.dom(), header.total_packets) {
            (TextView { complete: true, ..state }, Some(file))
        } else {
            (state, None)
        }),
{
    if all_present(state.chunks.dom(), header.total_packets) {
        let parts = Seq::new(header.total_packets, |i: int| piece(encoded, chunk, i as nat));
        assert forall|i: int| 0 <= i < header.total_packets implies #[trigger] in_order(
            state.chunks,
            header.total_packets,
        )[i] == parts[i] by {
            assert(state.chunks.dom().contains(i as usize));
            assert(state.chunks.contains_key(i as usize));
        }
        assert(in_order(state.chunks, header.total_packets) =~= parts);
        lemma_part_count(encoded.len(), chunk);
        lemma_joined_pieces(encoded, chunk, header.total_packets);
        assert(encoded.take(encoded.len() as int) =~= encoded);
    }
}

/// What has happened after some packets of a transfer.
spec fn delivered(
    header: TextHeaderView,
    encoded: Seq<char>,
    chunk: nat,
    file: Seq<u8>,
    packets: Seq<Seq<char>>,
) -> bool {
    let state = text_run(TextView::empty(), packets);
    let files = text_files(TextView::empty(), packets);
    if packets.contains(header_text(header)) {
        &&& on_course(state, header, encoded, chunk, packets)
        &&& files == (if state.complete {
            seq![file]
        } else {
            Seq::empty()
        })
    } else {
        &&& put_aside(state, header, encoded, chunk, packets)
        &&& files == Seq::<Seq<u8>>::empty()
    }
}

/// Which parts were seen after one more packet.
proof fn lemma_seen_more(
    header: TextHeaderView,
    encoded: Seq<char>,
    chunk: nat,
    seen: Seq<Seq<char>>,
    packet: Seq<char>,
)
    ensures
        forall|i: usize|
            seen.push(packet).contains(#[trigger] part_text(header, encoded, chunk, i as nat))
                <==> seen.contains(part_text(header, encoded, chunk, i as nat)) || part_text(
                header,
                encoded,
                chunk,
                i as nat,
            ) == packet,
{
    let more = seen.push(packet);
    assert(more[seen.len() as int] == packet);
    assert forall|i: usize|
        more.contains(#[trigger] part_text(header, encoded, chunk, i as nat)) <==> seen.contains(
            part_text(header, encoded, chunk, i as nat),
        ) || part_text(header, encoded, chunk, i as nat) == packet by {
        let wanted = part_text(header, encoded, chunk, i as nat);
        if more.contains(wanted) && wanted != packet {
            let k = choose|k: int| 0 <= k < more.len() && more[k] == wanted;
            assert(seen[k] == wanted);
        }
        if seen.contains(wanted) {
            let k = choose|k: int| 0 <= k < seen.len() && seen[k] == wanted;
            assert(more[k] == wanted);
        }
    }
}

/// Different parts have different packets, none of which is the header.
proof fn lemma_part_packets(header: TextHeaderView, encoded: Seq<char>, chunk: nat)
    requires
        text_transfer(header, encoded, chunk),
    ensures
        forall|i: usize|
            i < header.total_packets ==> #[trigger] part_text(header, encoded, chunk, i as nat)
                != header_text(header),
        forall|i: usize, j: usize|
            i < header.total_packets && j < header.total_packets && #[trigger] part_text(
                header,
                encoded,
                chunk,
                i as nat,
            ) == #[trigger] part_text(header, encoded, chunk, j as nat) ==> i == j,
{
    law_text_header_round_trip(header);
    assert forall|i: usize| i < header.total_packets implies #[trigger] part_text(
        header,
        encoded,
        chunk,
        i as nat,
    ) != header_text(header) by {
        lemma_part_read(header, encoded, chunk, i);
    }
    assert forall|i: usize, j: usize|
        i < header.total_packets && j < header.total_packets && #[trigger] part_text(
            header,
            encoded,
            chunk,
            i as nat,
        ) == #[trigger] part_text(header, encoded, chunk, j as nat) implies i == j by {
        lemma_part_read(header, encoded, chunk, i);
        lemma_part_read(header, encoded, chunk, j);
    }
}

/// The header turns what was put aside into a transfer on course.
#[verifier::rlimit(60)]
proof fn lemma_header_comes(
    state: TextView,
    header: TextHeaderView,
    encoded: Seq<char>,
    chunk: nat,
    file: Seq<u8>,
    seen: Seq<Seq<char>>,
)
    requires
        text_transfer(header, encoded, chunk),
        text_restored(encoded, header.filename, header.file_size, header.checksum) == Some(file),
        put_aside(state, header, encoded, chunk, seen),
    ensures
        ({
            let (after, handed_out) = state.processed(header_text(header));
            &&& on_course(after, header, encoded, chunk, seen.push(header_text(header)))
            &&& handed_out == (if after.complete {
                Some(file)
            } else {
                None
            })
        }),
{
    reveal(on_course);
    reveal(put_aside);
    law_text_header_round_trip(header);
    lemma_part_packets(header, encoded, chunk);
    lemma_seen_more(header, encoded, chunk, seen, header_text(header));
    let fresh = state.begun(header);
    lemma_bounded_finite(fresh.chunks.dom(), header.total_packets);
    assert(fresh.wf());
    lemma_restored(fresh, header, encoded, chunk, file);
}

/// The header brings nothing to a transfer on course.
#[verifier::rlimit(60)]
proof fn lemma_header_again(
    state: TextView,
    header: TextHeaderView,
    encoded: Seq<char>,
    chunk: nat,
    seen: Seq<Seq<char>>,
)
    requires
        text_transfer(header, encoded, chunk),
        on_course(state, header, encoded, chunk, seen),
    ensures
        state.processed(header_text(header)) == (state, None::<Seq<u8>>),
        on_course(state, header, encoded, chunk, seen.push(header_text(header))),
{
    reveal(on_course);
    law_text_header_round_trip(header);
    lemma_part_packets(header, encoded, chunk);
    lemma_seen_more(header, encoded, chunk, seen, header_text(header));
}

/// A part that comes before the header is put aside.
proof fn lemma_part_waits(
    state: TextView,
    header: TextHeaderView,
    encoded: Seq<char>,
    chunk: nat,
    seen: Seq<Seq<char>>,
    index: usize,
)
    requires
        text_transfer(header, encoded, chunk),
        put_aside(state, header, encoded, chunk, seen),
        index < header.total_packets,
    ensures
        ({
            let packet = part_text(header, encoded, chunk, index as nat);
            let (after, handed_out) = state.processed(packet);
            &&& put_aside(after, header, encoded, chunk, seen.push(packet))
            &&& handed_out is None
        }),
{
    reveal(put_aside);
    let packet = part_text(header, encoded, chunk, index as nat);
    lemma_part_read(header, encoded, chunk, index);
    lemma_part_packets(header, encoded, chunk);
    lemma_seen_more(header, encoded, chunk, seen, packet);
    let data = parsed_text_data(packet)->0;
    let after = state.waiting(data);
    assert(after =~= (TextView {
        pending: after.pending,
        pending_checksum: after.pending_checksum,
        ..TextView::empty()
    }));
    if state.pending_checksum is None {
        assert(seen.len() == 0);
    }
}

/// A part keeps a transfer on course, and the file is handed out with the part
/// that completes it.
#[verifier::rlimit(60)]
proof fn lemma_part_comes(
    state: TextView,
    header: TextHeaderView,
    encoded: Seq<char>,
    chunk: nat,
    file: Seq<u8>,
    seen: Seq<Seq<char>>,
    index: usize,
)
    requires
        text_transfer(header, encoded, chunk),
        text_restored(encoded, header.filename, header.file_size, header.checksum) == Some(file),
        on_course(state, header, encoded, chunk, seen),
        index < header.total_packets,
    ensures
        ({
            let packet = part_text(header, encoded, chunk, index as nat);
            let (after, handed_out) = state.processed(packet);
            &&& on_course(after, header, encoded, chunk, seen.push(packet))
            &&& state.complete ==> after.complete
            &&& handed_out == (if after.complete && !state.complete {
                Some(file)
            } else {
                None
            })
        }),
{
    reveal(on_course);
    let packet = part_text(header, encoded, chunk, index as nat);
    lemma_part_read(header, encoded, chunk, index);
    lemma_part_packets(header, encoded, chunk);
    lemma_seen_more(header, encoded, chunk, seen, packet);
    let next = state.stored(parsed_text_data(packet)->0);
    assert(next.wf());
    if state.complete {
        assert forall|i: usize| i < header.total_packets implies #[trigger] next.chunks.dom().contains(
            i,
        ) by {
            assert(state.chunks.dom().contains(i));
        }
    } else {
        lemma_restored(next, header, encoded, chunk, file);
    }
}

#[verifier::rlimit(60)]
proof fn lemma_delivered(
    header: TextHeaderView,
    encoded: Seq<char>,
    chunk: nat,
    file: Seq<u8>,
    packets: Seq<Seq<char>>,
)
    requires
        text_transfer(header, encoded, chunk),
        text_restored(encoded, header.filename, header.file_size, header.checksum) == Some(file),
        forall|k: int|
            0 <= k < packets.len() ==> text_packets(header, encoded, chunk).contains(
                #[trigger] packets[k],
            ),
    ensures
        delivered(header, encoded, chunk, file, packets),
    decreases packets.len(),
{
    let start = TextView::empty();
    let opening = header_text(header);
    if packets.len() == 0 {
        reveal(put_aside);
        assert(start =~= (TextView {
            pending: start.pending,
            pending_checksum: start.pending_checksum,
            ..TextView::empty()
        }));
    } else {
        let earlier = packets.drop_last();
        let packet = packets.last();
        assert(packet == packets[packets.len() - 1]);
        assert forall|k: int| 0 <= k < earlier.len() implies text_packets(
            header,
            encoded,
            chunk,
        ).contains(#[trigger] earlier[k]) by {
            assert(earlier[k] == packets[k]);
        }
        lemma_delivered(header, encoded, chunk, file, earlier);
        let state = text_run(start, earlier);
        assert(earlier.push(packet) =~= packets);
        assert(packets.contains(opening) <==> earlier.contains(opening) || packet == opening) by {
            if earlier.contains(opening) {
                let k = choose|k: int| 0 <= k < earlier.len() && earlier[k] == opening;
                assert(packets[k] == opening);
            }
            if packets.contains(opening) && packet != opening {
                let k = choose|k: int| 0 <= k < packets.len() && packets[k] == opening;
                assert(earlier[k] == opening);
            }
        }
        let after = state.processed(packet).0;
        if packet == opening {
            if earlier.contains(opening) {
                lemma_header_again(state, header, encoded, chunk, earlier);
            } else {
                lemma_header_comes(state, header, encoded, chunk, file, earlier);
            }
        } else {
            let all = text_packets(header, encoded, chunk);
            let at = choose|at: int| 0 <= at < all.len() && all[at] == packet;
            let index = (at - 1) as usize;
            assert(packet == part_text(header, encoded, chunk, index as nat));
            if earlier.contains(opening) {
                lemma_part_comes(state, header, encoded, chunk, file, earlier, index);
            } else {
                lemma_part_waits(state, header, encoded, chunk, earlier, index);
            }
        }
        if packets.contains(opening) {
            assert(text_files(start, packets) =~= (if after.complete {
                seq![file]
            } else {
                Seq::empty()
            }));
        }
    }
}

/// Whether a receiver shows exactly the parts that came, is complete exactly if
/// all came, and has then handed out the file once, and otherwise nothing.
pub open spec fn exactly_received(
    header: TextHeaderView,
    encoded: Seq<char>,
    chunk: nat,
    file: Seq<u8>,
    packets: Seq<Seq<char>>,
    state: TextView,
    files: Seq<Seq<u8>>,
) -> bool {
    let complete = forall|i: usize|
        i < header.total_packets ==> packets.contains(
            #[trigger] part_text(header, encoded, chunk, i as nat),
        );
    &&& state.filename == header.filename
    &&& state.checksum == Some(header.checksum)
    &&& forall|i: usize|
        i < header.total_packets ==> (#[trigger] state.present()[i as int] <==> packets.contains(
            part_text(header, encoded, chunk, i as nat),
        ))
    &&& state.complete <==> complete
    &&& files == (if complete {
        seq![file]
    } else {
        Seq::empty()
    })
}

/// Whatever packets of a transfer arrive, the header among them, in whatever
/// order and however often, a fresh receiver shows exactly the parts that came.
/// Once all came it has handed out the file, once; until then it hands out
/// nothing.
#[verifier::rlimit(60)]
pub proof fn law_text_delivery(
    header: TextHeaderView,
    encoded: Seq<char>,
    chunk: nat,
    file: Seq<u8>,
    packets: Seq<Seq<char>>,
)
    requires
        text_transfer(header, encoded, chunk),
        forall|k: int|
            0 <= k < packets.len() ==> text_packets(header, encoded, chunk).contains(
                #[trigger] packets[k],
            ),
        packets.contains(header_text(header)),
    ensures
        text_restored(encoded, header.filename, header.file_size, header.checksum) == Some(file)
            ==> exactly_received(
            header,
            encoded,
            chunk,
            file,
            packets,
            text_run(TextView::empty(), packets),
            text_files(TextView::empty(), packets),
        ),
{
    if text_restored(encoded, header.filename, header.file_size, header.checksum) == Some(file) {
        reveal(on_course);
        lemma_delivered(header, encoded, chunk, file, packets);
        let state = text_run(TextView::empty(), packets);
        if all_present(state.chunks.dom(), header.total_packets) {
            assert forall|i: usize| i < header.total_packets implies packets.contains(
                #[trigger] part_text(header, encoded, chunk, i as nat),
            ) by {
                assert(state.chunks.dom().contains(i));
                assert(state.chunks.contains_key(i));
            }
        } else {
            let i = choose|i: usize|
                i < header.total_packets && !(#[trigger] state.chunks.dom().contains(i));
            assert(!state.chunks.contains_key(i));
            assert(!packets.contains(part_text(header, encoded, chunk, i as nat)));
        }
    }
}

/// A file is handed out only if it has the length that the header announced, and if
/// the hash of the name followed by the file is the checksum that it announced.
pub proof fn law_text_files_are_genuine(state: TextView, packet: Seq<char>)
    ensures
        state.processed(packet).1 matches Some(file) ==> {
            let after = state.processed(packet).0;
            &&& after.complete
            &&& after.checksum matches Some(sum) && text_genuine(
                file,
                after.filename,
                after.file_size,
                sum,
            )
            &&& file.len() == after.file_size
            &&& after.checksum == Some(fnv1a(encode_utf8(after.filename) + file))
        },
{
}

/// Once the file is handed out, nothing more is, as long as no other transfer is
/// announced.
#[verifier::rlimit(60)]
pub proof fn law_text_complete_is_silent(state: TextView, packet: Seq<char>)
    requires
        state.wf(),
        state.complete,
        parsed_text_header(packet) matches Some(header) ==> !state.is_new(header),
    ensures
        state.processed(packet).1 is None,
        state.processed(packet).0.complete,
        state.processed(packet).0.checksum == state.checksum,
{
}

/// A part of another transfer changes nothing once a header is there.
pub proof fn law_text_foreign_parts_change_nothing(state: TextView, packet: Seq<char>)
    requires
        state.checksum is Some,
        !"METADATA|"@.is_prefix_of(packet),
        parsed_text_data(packet) matches Some(data) ==> state.checksum != Some(data.checksum),
    ensures
        state.processed(packet) == (state, None::<Seq<u8>>),
{
}

/// A data packet that comes twice in a row has no effect the second time,
/// whatever it carries.
pub proof fn law_text_repeats_change_nothing(state: TextView, packet: Seq<char>)
    requires
        !"METADATA|"@.is_prefix_of(packet),
    ensures
        state.processed(packet).0.processed(packet) == (
            state.processed(packet).0,
            None::<Seq<u8>>,
        ),
{
    if let Some(data) = parsed_text_data(packet) {
        let after = state.processed(packet).0;
        if state.checksum == Some(data.checksum) {
            assert(after.stored(data).chunks =~= after.chunks);
            assert(after.stored(data) =~= after);
        } else if state.checksum is None {
            assert(after.waiting(data) =~= after);
        }
    }
}

/// The receiver after two series of packets, one after the other, and the files of
/// both.
proof fn lemma_run_append(state: TextView, a: Seq<Seq<char>>, b: Seq<Seq<char>>)
    ensures
        text_run(state, a + b) == text_run(text_run(state, a), b),
        text_files(state, a + b) == text_files(state, a) + text_files(text_run(state, a), b),
    decreases b.len(),
{
    if b.len() == 0 {
        assert(a + b =~= a);
        assert(text_files(state, a) + Seq::<Seq<u8>>::empty() =~= text_files(state, a));
    } else {
        lemma_run_append(state, a, b.drop_last());
        assert((a + b).drop_last() =~= a + b.drop_last());
        let middle = text_run(state, a);
        assert(text_files(state, a + b) =~= text_files(state, a) + text_files(middle, b));
    }
}

/// The header of another transfer, by its checksum, its number of parts or its size,
/// starts anew, whatever came before: nothing of the earlier transfer is left, and
/// nothing is handed out yet. That is what the header makes of a fresh receiver.
pub proof fn law_text_another_header_starts_anew(state: TextView, header: TextHeaderView)
    requires
        state.wf(),
        state.checksum is Some,
        header.acceptable(),
        !header.filename.contains('|'),
        state.checksum != Some(header.checksum) || state.total_packets != header.total_packets
            || state.file_size != header.file_size,
    ensures
        ({
            let (after, handed_out) = state.processed(header_text(header));
            &&& after.checksum == Some(header.checksum)
            &&& after.total_packets == header.total_packets
            &&& after.file_size == header.file_size
            &&& after.filename == header.filename
            &&& after.chunks == Map::<usize, Seq<char>>::empty()
            &&& after.pending == Map::<usize, Seq<char>>::empty()
            &&& after.pending_checksum is None
            &&& !after.complete
            &&& handed_out is None
        }),
        state.processed(header_text(header)) == TextView::empty().processed(header_text(header)),
{
    law_text_header_round_trip(header);
    let fresh = state.begun(header);
    assert(!fresh.chunks.dom().contains(0usize));
    assert(TextView::empty().begun(header) =~= fresh);
}

/// A fresh receiver knows nothing.
pub proof fn law_text_fresh_receiver_is_blank()
    ensures
        TextView::empty() == (TextView {
            checksum: None,
            total_packets: 0,
            file_size: 0,
            filename: Seq::empty(),
            chunks: Map::empty(),
            pending: Map::empty(),
            pending_checksum: None,
            complete: false,
        }),
        TextView::empty().wf(),
{
}

/// The header of the present transfer, seen again, changes nothing.
pub proof fn law_text_same_header_changes_nothing(state: TextView, header: TextHeaderView)
    requires
        state.wf(),
        header.acceptable(),
        !header.filename.contains('|'),
        state.checksum == Some(header.checksum),
        state.total_packets == header.total_packets,
        state.file_size == header.file_size,
    ensures
        state.at_rest() ==> state.processed(header_text(header)) == (state, None::<Seq<u8>>),
{
    law_text_header_round_trip(header);
}

/// A header that comes late takes over the parts that waited for it: all those of its
/// own transfer that it announces, and no other.
pub proof fn law_text_late_header_takes_what_waited(state: TextView, header: TextHeaderView)
    requires
        state.wf(),
        state.checksum is None,
        header.acceptable(),
        !header.filename.contains('|'),
    ensures
        ({
            let after = state.processed(header_text(header)).0;
            &&& after.checksum == Some(header.checksum)
            &&& after.total_packets == header.total_packets
            &&& after.file_size == header.file_size
            &&& after.filename == header.filename
            &&& after.pending == Map::<usize, Seq<char>>::empty()
            &&& forall|i: usize| #[trigger]
                after.chunks.contains_key(i) <==> state.pending_checksum == Some(header.checksum)
                    && state.pending.contains_key(i) && i < header.total_packets
            &&& forall|i: usize| #[trigger]
                after.chunks.contains_key(i) ==> after.chunks[i] == state.pending[i]
        }),
{
    law_text_header_round_trip(header);
}

/// A part that comes before any header waits. The first copy stays; parts of another
/// transfer make way.
pub proof fn law_text_early_parts_wait(
    state: TextView,
    checksum: u64,
    index: usize,
    chunk: Seq<char>,
)
    requires
        state.wf(),
        state.checksum is None,
        1 <= chunk.len(),
        encode_utf8(chunk).len() <= 1_500,
    ensures
        ({
            let (after, handed_out) = state.processed(data_text(checksum, index as nat, chunk));
            let same = state.pending_checksum == Some(checksum);
            &&& handed_out is None
            &&& after.checksum is None
            &&& after.pending_checksum == Some(checksum)
            &&& forall|i: usize| #[trigger]
                after.pending.contains_key(i) <==> i == index || (same
                    && state.pending.contains_key(i))
            &&& forall|i: usize|
                same && #[trigger] state.pending.contains_key(i) ==> after.pending[i]
                    == state.pending[i]
            &&& !(same && state.pending.contains_key(index)) ==> after.pending[index] == chunk
        }),
{
    law_text_data_round_trip(checksum, index, chunk);
}

/// A part of the present transfer is kept under its index, in place of an earlier
/// copy; a part that was not announced is dropped. Nothing else changes.
pub proof fn law_text_parts_are_kept(
    state: TextView,
    checksum: u64,
    index: usize,
    chunk: Seq<char>,
)
    requires
        state.wf(),
        state.checksum == Some(checksum),
        1 <= chunk.len(),
        encode_utf8(chunk).len() <= 1_500,
    ensures
        ({
            let after = state.processed(data_text(checksum, index as nat, chunk)).0;
            &&& after.checksum == state.checksum
            &&& after.total_packets == state.total_packets
            &&& after.file_size == state.file_size
            &&& after.filename == state.filename
            &&& index < state.total_packets ==> after.chunks == state.chunks.insert(index, chunk)
            &&& index >= state.total_packets ==> after.chunks == state.chunks
            &&& state.complete ==> after.complete
        }),
{
    law_text_data_round_trip(checksum, index, chunk);
}

/// Of a header only what it says counts: one that is read as a header does what that
/// header does in its usual notation.
pub proof fn law_text_header_does_what_it_says(
    state: TextView,
    packet: Seq<char>,
    header: TextHeaderView,
)
    requires
        parsed_text_header(packet) == Some(header),
    ensures
        header.acceptable(),
        !header.filename.contains('|'),
        state.processed(packet) == state.processed(header_text(header)),
{
    let list = fields(packet, 6);
    law_fields_split_at_bars(packet, 6);
    assert(list.len() == 5);
    assert(!list[1].contains('|'));
    law_text_header_round_trip(header);
    let rest = with_bars(list.drop_first());
    assert(packet == list[0] + seq!['|'] + rest);
    reveal_strlit("METADATA|");
    reveal_strlit("METADATA");
    assert(packet.take(9) =~= "METADATA|"@);
    assert("METADATA|"@.is_prefix_of(packet));
}

/// Of a part only what it says counts.
pub proof fn law_text_part_does_what_it_says(
    state: TextView,
    packet: Seq<char>,
    data: TextDataView,
)
    requires
        parsed_text_data(packet) == Some(data),
    ensures
        1 <= data.chunk.len(),
        encode_utf8(data.chunk).len() <= 1_500,
        state.processed(packet) == state.processed(
            data_text(data.checksum, data.index as nat, data.chunk),
        ),
{
    let list = fields(packet, 4);
    law_fields_split_at_bars(packet, 4);
    law_text_data_round_trip(data.checksum, data.index, data.chunk);
    let rest = with_bars(list.drop_first());
    assert(packet == list[0] + seq!['|'] + rest);
    reveal_strlit("METADATA|");
    reveal_strlit("DATA");
    assert(packet[0] == 'D');
    assert("METADATA|"@[0] == 'M');
}

/// What is read neither as a header nor as a part changes nothing.
pub proof fn law_text_unreadable_packets_change_nothing(state: TextView, packet: Seq<char>)
    requires
        parsed_text_header(packet) is None,
        parsed_text_data(packet) is None,
    ensures
        state.processed(packet) == (state, None::<Seq<u8>>),
{
}

/// A part brings the file exactly if it was not brought before, all parts are there then,
/// and what they hold together restores it.
pub proof fn law_text_part_brings_what_all_parts_hold(
    state: TextView,
    checksum: u64,
    index: usize,
    chunk: Seq<char>,
    file: Seq<u8>,
)
    requires
        state.wf(),
        state.checksum == Some(checksum),
        1 <= chunk.len(),
        encode_utf8(chunk).len() <= 1_500,
    ensures
        ({
            let (after, handed_out) = state.processed(data_text(checksum, index as nat, chunk));
            handed_out == Some(file) <==> {
                &&& !state.complete
                &&& forall|i: usize|
                    i < state.total_packets ==> #[trigger] after.chunks.contains_key(i)
                &&& text_restored(
                    joined(in_order(after.chunks, state.total_packets)),
                    state.filename,
                    state.file_size,
                    checksum,
                ) == Some(file)
            }
        }),
{
    law_text_data_round_trip(checksum, index, chunk);
    let next = state.stored(TextDataView { checksum, index, chunk });
    let after = state.processed(data_text(checksum, index as nat, chunk)).0;
    assert(after.chunks == next.chunks);
    assert(all_present(next.chunks.dom(), next.total_packets) <==> forall|i: usize|
        i < state.total_packets ==> #[trigger] next.chunks.contains_key(i));
}

/// A report is true: what is there and what is missing make up all parts, as many are
/// there as the map shows, and the checksum, once there is one, reads as the one
/// announced.
pub proof fn law_text_reports_are_true(info: ReceiverInfo, state: TextView)
    requires
        state.wf(),
        info.reports(state),
    ensures
        info.filename@ == state.filename,
        info.total_packets == state.total_packets,
        info.file_size == state.file_size,
        info.complete == state.complete,
        info.received_packets == count_set(state.present()),
        info.received_packets + info.missing_packets == info.total_packets,
        info.checksum is Some <==> state.checksum is Some,
        info.checksum matches Some(text) ==> text@.len() == 16 && is_hex(text@) && read_hex(text@)
            == state.checksum->0,
{
    law_progress_counts_the_map(state.chunks.dom(), state.total_packets);
    if let Some(sum) = state.checksum {
        law_checksum_notation(sum);
    }
}

/// Parts that are shown as present are those that are kept, for every part announced.
pub proof fn law_text_map_shows_what_is_kept(state: TextView)
    ensures
        state.present().len() == state.total_packets,
        forall|i: usize|
            i < state.total_packets ==> #[trigger] state.present()[i as int]
                == state.chunks.contains_key(i),
{
}

/// A file is handed out exactly when the receiver becomes complete.
#[verifier::rlimit(60)]
pub proof fn law_text_hands_out_when_complete(state: TextView, packet: Seq<char>)
    requires
        state.wf(),
    ensures
        state.processed(packet).1 is Some <==> state.processed(packet).0.complete
            && !state.complete,
{
    if let Some(header) = parsed_text_header(packet) {
        if state.complete {
            assert(!state.begun(header).chunks.dom().contains(0usize));
        }
    }
}

/// Delivery does not depend on what a receiver did before. Where it holds another
/// transfer, finished or not, parts that come before the new header change nothing,
/// and from that header on it does what a fresh receiver does: it shows exactly the
/// parts that came, and once all came it has handed out the file, once.
#[verifier::rlimit(60)]
pub proof fn law_text_delivery_from_any_state(
    state: TextView,
    header: TextHeaderView,
    encoded: Seq<char>,
    chunk: nat,
    file: Seq<u8>,
    packets: Seq<Seq<char>>,
    first: int,
)
    requires
        state.wf(),
        state.checksum is Some,
        state.checksum != Some(header.checksum),
        text_transfer(header, encoded, chunk),
        forall|k: int|
            0 <= k < packets.len() ==> text_packets(header, encoded, chunk).contains(
                #[trigger] packets[k],
            ),
        0 <= first < packets.len(),
        packets[first] == header_text(header),
        forall|k: int| 0 <= k < first ==> #[trigger] packets[k] != header_text(header),
    ensures
        text_run(state, packets) == text_run(TextView::empty(), packets.skip(first)),
        text_files(state, packets) == text_files(TextView::empty(), packets.skip(first)),
        text_restored(encoded, header.filename, header.file_size, header.checksum) == Some(file)
            ==> exactly_received(
            header,
            encoded,
            chunk,
            file,
            packets.skip(first),
            text_run(state, packets),
            text_files(state, packets),
        ),
{
    let opening = header_text(header);
    let before = packets.take(first);
    let rest = packets.skip(first);
    assert(packets =~= before + rest);
    lemma_run_append(state, before, rest);
    assert forall|k: int| 0 <= k < before.len() implies text_packets(
        header,
        encoded,
        chunk,
    ).contains(#[trigger] before[k]) && before[k] != opening by {
        assert(before[k] == packets[k]);
    }
    lemma_foreign_parts(state, header, encoded, chunk, before);
    assert(Seq::<Seq<u8>>::empty() + text_files(state, rest) =~= text_files(state, rest));
    let head = seq![opening];
    let tail = rest.skip(1);
    assert(rest =~= head + tail);
    lemma_run_append(state, head, tail);
    lemma_run_append(TextView::empty(), head, tail);
    assert(head.drop_last() =~= Seq::<Seq<char>>::empty());
    law_text_another_header_starts_anew(state, header);
    reveal_with_fuel(text_run, 2);
    reveal_with_fuel(text_files, 2);
    assert(text_run(state, head) == text_run(TextView::empty(), head));
    assert(text_files(state, head) == text_files(TextView::empty(), head));
    assert forall|k: int| 0 <= k < rest.len() implies text_packets(
        header,
        encoded,
        chunk,
    ).contains(#[trigger] rest[k]) by {
        assert(rest[k] == packets[first + k]);
    }
    assert(rest[0] == opening);
    assert(rest.contains(opening));
    law_text_delivery(header, encoded, chunk, file, rest);
}

/// Parts of another transfer than the present one change nothing.
proof fn lemma_foreign_parts(
    state: TextView,
    header: TextHeaderView,
    encoded: Seq<char>,
    chunk: nat,
    packets: Seq<Seq<char>>,
)
    requires
        state.checksum is Some,
        state.checksum != Some(header.checksum),
        text_transfer(header, encoded, chunk),
        forall|k: int|
            0 <= k < packets.len() ==> text_packets(header, encoded, chunk).contains(
                #[trigger] packets[k],
            ) && packets[k] != header_text(header),
    ensures
        text_run(state, packets) == state,
        text_files(state, packets) == Seq::<Seq<u8>>::empty(),
    decreases packets.len(),
{
    if packets.len() > 0 {
        let earlier = packets.drop_last();
        assert forall|k: int| 0 <= k < earlier.len() implies text_packets(
            header,
            encoded,
            chunk,
        ).contains(#[trigger] earlier[k]) && earlier[k] != header_text(header) by {
            assert(earlier[k] == packets[k]);
        }
        lemma_foreign_parts(state, header, encoded, chunk, earlier);
        let packet = packets[packets.len() - 1];
        let all = text_packets(header, encoded, chunk);
        assert(all.contains(packet) && packet != header_text(header));
        let at = choose|at: int| 0 <= at < all.len() && all[at] == packet;
        let index = (at - 1) as usize;
        assert(packet == part_text(header, encoded, chunk, index as nat));
        lemma_part_read(header, encoded, chunk, index);
    }
}

/// Whatever packet comes, a receiver stays well-formed.
pub proof fn law_text_stays_well_formed(state: TextView, packet: Seq<char>)
    requires
        state.wf(),
    ensures
        state.processed(packet).0.wf(),
{
    if let Some(header) = parsed_text_header(packet) {
        lemma_bounded_finite(state.begun(header).chunks.dom(), header.total_packets);
    }
}

/// No part that a receiver holds is lost, unless another transfer is announced.
pub proof fn law_text_nothing_is_forgotten(state: TextView, packet: Seq<char>)
    requires
        state.wf(),
        parsed_text_header(packet) matches Some(header) ==> !state.is_new(header),
    ensures
        state.chunks.dom().subset_of(state.processed(packet).0.chunks.dom()),
        state.checksum is Some ==> state.processed(packet).0.checksum == state.checksum,
{
}

/// What a sender makes of a file is what a fresh receiver gets back, whatever the
/// order of the packets and however often they come, as long as there are no
/// more of them than a header may announce.
pub proof fn law_text_round_trip(
    file: Seq<u8>,
    filename: Seq<char>,
    chunk: nat,
    compressed: Seq<u8>,
    encoded: Seq<char>,
    packets: Seq<Seq<char>>,
)
    requires
        text_sendable(file, filename, chunk),
        part_count(encoded.len(), chunk) <= MAX_TOTAL_PACKETS,
        packets.to_set() == text_packets(
            text_header(file, filename, part_count(encoded.len(), chunk)),
            encoded,
            chunk,
        ).to_set(),
    ensures
        packed_text(file, compressed, encoded) ==> {
            &&& text_files(TextView::empty(), packets) == seq![file]
            &&& text_run(TextView::empty(), packets).complete
        },
{
    if packed_text(file, compressed, encoded) {
        let header = text_header(file, filename, part_count(encoded.len(), chunk));
        let all = text_packets(header, encoded, chunk);
        lemma_packed_transfer(file, filename, chunk, compressed, encoded);
        assert forall|k: int| 0 <= k < packets.len() implies all.contains(
            #[trigger] packets[k],
        ) by {
            assert(packets.to_set().contains(packets[k]));
            assert(all.to_set().contains(packets[k]));
        }
        assert forall|k: int| 0 <= k < all.len() implies packets.contains(#[trigger] all[k]) by {
            assert(all.to_set().contains(all[k]));
            assert(packets.to_set().contains(all[k]));
        }
        assert(all[0] == header_text(header));
        law_text_delivery(header, encoded, chunk, file, packets);
        assert forall|i: usize| i < header.total_packets implies packets.contains(
            #[trigger] part_text(header, encoded, chunk, i as nat),
        ) by {
            assert(all[i + 1] == part_text(header, encoded, chunk, i as nat));
        }
    }
}

/// What a sender makes of a file is a transfer that a receiver can take in, unless it
/// has too many parts.
proof fn lemma_packed_transfer(
    file: Seq<u8>,
    filename: Seq<char>,
    chunk: nat,
    compressed: Seq<u8>,
    encoded: Seq<char>,
)
    requires
        text_sendable(file, filename, chunk),
        part_count(encoded.len(), chunk) <= MAX_TOTAL_PACKETS,
        packed_text(file, compressed, encoded),
    ensures
        ({
            let header = text_header(file, filename, part_count(encoded.len(), chunk));
            &&& text_transfer(header, encoded, chunk)
            &&& text_restored(encoded, header.filename, header.file_size, header.checksum) == Some(
                file,
            )
        }),
{
    lemma_part_count(encoded.len(), chunk);
    if part_count(encoded.len(), chunk) == 0 {
        assert(0 * chunk == 0);
        assert(false);
    }
}

/// Whether every file of `size` bytes has no more parts of `chunk` characters than a
/// header may announce, however badly it compresses.
pub open spec fn always_fits(size: nat, chunk: nat) -> bool {
    (stream_limit(size) + 2) / 3 * 4 <= chunk * MAX_TOTAL_PACKETS
}

/// In parts of the usual size or longer, every file that may be sent fits a transfer,
/// and so does any file that is small enough for its parts.
pub proof fn law_text_parts_fit(
    file: Seq<u8>,
    chunk: nat,
    compressed: Seq<u8>,
    encoded: Seq<char>,
)
    requires
        file.len() <= MAX_FILE_BYTES,
        MIN_DATA_CHUNK_CHARS <= chunk,
        chunk >= DEFAULT_DATA_CHUNK_CHARS || always_fits(file.len(), chunk),
    ensures
        packed_text(file, compressed, encoded) ==> 1 <= part_count(encoded.len(), chunk)
            <= MAX_TOTAL_PACKETS,
{
    if packed_text(file, compressed, encoded) {
        let size = file.len();
        if chunk >= DEFAULT_DATA_CHUNK_CHARS {
            assert(size / 31_745 <= 49);
            assert(stream_limit(size) <= 50 * 85_180);
            assert(chunk * MAX_TOTAL_PACKETS >= 600 * 10_000) by (nonlinear_arith)
                requires
                    chunk >= 600,
                    MAX_TOTAL_PACKETS == 10_000,
            ;
        }
        assert(encoded.len() <= chunk * MAX_TOTAL_PACKETS);
        let count = part_count(encoded.len(), chunk);
        lemma_part_count(encoded.len(), chunk);
        if count > MAX_TOTAL_PACKETS {
            assert((MAX_TOTAL_PACKETS as int) * chunk < encoded.len());
            assert(MAX_TOTAL_PACKETS * chunk == chunk * MAX_TOTAL_PACKETS) by (nonlinear_arith);
            assert(false);
        }
        if count == 0 {
            assert(0 * chunk == 0);
            assert(false);
        }
    }
}

/// In parts of the usual size or longer, what a sender makes of any file is what a
/// fresh receiver gets back, whatever the order of the packets and however often they
/// come.
pub proof fn law_text_every_file_arrives(
    file: Seq<u8>,
    filename: Seq<char>,
    chunk: nat,
    compressed: Seq<u8>,
    encoded: Seq<char>,
    packets: Seq<Seq<char>>,
)
    requires
        text_sendable(file, filename, chunk),
        chunk >= DEFAULT_DATA_CHUNK_CHARS || always_fits(file.len(), chunk),
        packets.to_set() == text_packets(
            text_header(file, filename, part_count(encoded.len(), chunk)),
            encoded,
            chunk,
        ).to_set(),
    ensures
        packed_text(file, compressed, encoded) ==> {
            &&& text_files(TextView::empty(), packets) == seq![file]
            &&& text_run(TextView::empty(), packets).complete
        },
{
    if packed_text(file, compressed, encoded) {
        law_text_parts_fit(file, chunk, compressed, encoded);
        law_text_round_trip(file, filename, chunk, compressed, encoded, packets);
    }
}

/// A data packet does not begin as a header does.
proof fn lemma_data_is_no_header(checksum: u64, index: nat, chunk: Seq<char>)
    ensures
        !"METADATA|"@.is_prefix_of(data_text(checksum, index, chunk)),
{
    reveal_strlit("METADATA|");
    reveal_strlit("DATA|");
    assert(data_text(checksum, index, chunk)[0] == 'D');
    assert("METADATA|"@[0] == 'M');
}

/// Of a transfer with more parts than a header may announce nothing is handed out.
pub proof fn law_text_too_many_parts_bring_nothing(
    file: Seq<u8>,
    filename: Seq<char>,
    chunk: nat,
    compressed: Seq<u8>,
    encoded: Seq<char>,
    packets: Seq<Seq<char>>,
)
    requires
        text_sendable(file, filename, chunk),
        part_count(encoded.len(), chunk) > MAX_TOTAL_PACKETS,
        forall|k: int|
            0 <= k < packets.len() ==> text_packets(
                text_header(file, filename, part_count(encoded.len(), chunk)),
                encoded,
                chunk,
            ).contains(#[trigger] packets[k]),
    ensures
        packed_text(file, compressed, encoded) ==> {
            &&& text_files(TextView::empty(), packets) == Seq::<Seq<u8>>::empty()
            &&& text_run(TextView::empty(), packets).checksum is None
        },
    decreases packets.len(),
{
    if packed_text(file, compressed, encoded) && packets.len() > 0 {
        let header = text_header(file, filename, part_count(encoded.len(), chunk));
        let all = text_packets(header, encoded, chunk);
        let earlier = packets.drop_last();
        let packet = packets.last();
        assert(packet == packets[packets.len() - 1]);
        assert forall|k: int| 0 <= k < earlier.len() implies all.contains(
            #[trigger] earlier[k],
        ) by {
            assert(earlier[k] == packets[k]);
        }
        law_text_too_many_parts_bring_nothing(
            file,
            filename,
            chunk,
            compressed,
            encoded,
            earlier,
        );
        let at = choose|at: int| 0 <= at < all.len() && all[at] == packet;
        if at == 0 {
            lemma_total_is_a_count(file, chunk, compressed, encoded);
            law_text_header_round_trip(header);
        } else {
            lemma_data_is_no_header(
                header.checksum,
                (at - 1) as nat,
                piece(encoded, chunk, (at - 1) as nat),
            );
        }
    }
}

proof fn lemma_total_is_a_count(
    file: Seq<u8>,
    chunk: nat,
    compressed: Seq<u8>,
    encoded: Seq<char>,
)
    requires
        file.len() <= MAX_FILE_BYTES,
        MIN_DATA_CHUNK_CHARS <= chunk,
        packed_text(file, compressed, encoded),
    ensures
        part_count(encoded.len(), chunk) <= usize::MAX,
{
    assert(file.len() / 31_745 <= 49);
    assert(encoded.len() <= 6_000_000);
    lemma_part_count(encoded.len(), chunk);
    let count = part_count(encoded.len(), chunk);
    if count > 6_000_000 {
        assert(6_000_000int * chunk < encoded.len());
        assert(6_000_000int * chunk >= 6_000_000) by (nonlinear_arith)
            requires
                chunk >= 1,
        ;
        assert(false);
    }
}

/// Whether every packet of a transfer occurs among those that came.
pub open spec fn all_came(
    header: TextHeaderView,
    encoded: Seq<char>,
    chunk: nat,
    packets: Seq<Seq<char>>,
) -> bool {
    forall|k: int|
        0 <= k < text_packets(header, encoded, chunk).len() ==> packets.contains(
            #[trigger] text_packets(header, encoded, chunk)[k],
        )
}

/// Every packet came exactly if the header and all parts did.
proof fn lemma_all_came(
    header: TextHeaderView,
    encoded: Seq<char>,
    chunk: nat,
    packets: Seq<Seq<char>>,
)
    requires
        text_transfer(header, encoded, chunk),
    ensures
        all_came(header, encoded, chunk, packets) <==> packets.contains(header_text(header)) && (
        forall|i: usize|
            i < header.total_packets ==> packets.contains(
                #[trigger] part_text(header, encoded, chunk, i as nat),
            )),
{
    let all = text_packets(header, encoded, chunk);
    assert(all[0] == header_text(header));
    if all_came(header, encoded, chunk, packets) {
        assert(packets.contains(all[0]));
        assert forall|i: usize| i < header.total_packets implies packets.contains(
            #[trigger] part_text(header, encoded, chunk, i as nat),
        ) by {
            assert(all[i + 1] == part_text(header, encoded, chunk, i as nat));
        }
    }
    if packets.contains(header_text(header)) && (forall|i: usize|
        i < header.total_packets ==> packets.contains(
            #[trigger] part_text(header, encoded, chunk, i as nat),
        )) {
        assert forall|k: int| 0 <= k < all.len() implies packets.contains(#[trigger] all[k]) by {
            if k > 0 {
                assert(all[k] == part_text(header, encoded, chunk, (k - 1) as usize as nat));
            }
        }
    }
}

/// Whether, after `packets` of a transfer, `next` brings out the file exactly if it is
/// the one with which all have come, and whether the receiver is then complete and
/// counts all parts.
pub open spec fn completes_with_the_last(
    header: TextHeaderView,
    encoded: Seq<char>,
    chunk: nat,
    file: Seq<u8>,
    packets: Seq<Seq<char>>,
    next: Seq<char>,
) -> bool {
    let (after, handed_out) = text_run(TextView::empty(), packets).processed(next);
    let before_all = all_came(header, encoded, chunk, packets);
    let now_all = all_came(header, encoded, chunk, packets.push(next));
    &&& handed_out == (if now_all && !before_all {
        Some(file)
    } else {
        None
    })
    &&& now_all ==> {
        &&& after.complete
        &&& after.chunks.dom().len() == header.total_packets
        &&& after.total_packets == header.total_packets
    }
}

/// Of the packets of a transfer, in whatever order and however often they come,
/// exactly the one with which all have come brings out the file. From then on the
/// receiver is complete and counts all parts.
pub proof fn law_text_file_comes_with_the_last_packet(
    header: TextHeaderView,
    encoded: Seq<char>,
    chunk: nat,
    file: Seq<u8>,
    packets: Seq<Seq<char>>,
    next: Seq<char>,
)
    requires
        text_transfer(header, encoded, chunk),
        forall|k: int|
            0 <= k < packets.len() ==> text_packets(header, encoded, chunk).contains(
                #[trigger] packets[k],
            ),
        text_packets(header, encoded, chunk).contains(next),
    ensures
        text_restored(encoded, header.filename, header.file_size, header.checksum) == Some(file)
            ==> completes_with_the_last(header, encoded, chunk, file, packets, next),
{
    if text_restored(encoded, header.filename, header.file_size, header.checksum) == Some(file) {
        let start = TextView::empty();
        let opening = header_text(header);
        let more = packets.push(next);
        assert(more.drop_last() =~= packets);
        assert forall|k: int| 0 <= k < more.len() implies text_packets(
            header,
            encoded,
            chunk,
        ).contains(#[trigger] more[k]) by {
            if k < packets.len() {
                assert(more[k] == packets[k]);
            }
        }
        lemma_all_came(header, encoded, chunk, packets);
        lemma_all_came(header, encoded, chunk, more);
        lemma_delivered(header, encoded, chunk, file, packets);
        lemma_delivered(header, encoded, chunk, file, more);
        if packets.contains(opening) {
            law_text_delivery(header, encoded, chunk, file, packets);
        }
        if more.contains(opening) {
            law_text_delivery(header, encoded, chunk, file, more);
        }
        assert(packets.contains(opening) ==> more.contains(opening)) by {
            if packets.contains(opening) {
                let k = choose|k: int| 0 <= k < packets.len() && packets[k] == opening;
                assert(more[k] == opening);
            }
        }
        lemma_seen_more(header, encoded, chunk, packets, next);
        let earlier = text_files(start, packets);
        let later = text_files(start, more);
        assert(earlier.len() == (if all_came(header, encoded, chunk, packets) {
            1nat
        } else {
            0nat
        }));
        assert(later.len() == (if all_came(header, encoded, chunk, more) {
            1nat
        } else {
            0nat
        }));
        let handed_out = text_run(start, packets).processed(next).1;
        if let Some(got) = handed_out {
            assert(later == earlier.push(got));
            assert(later[earlier.len() as int] == got);
        } else {
            assert(later == earlier);
        }
        if all_came(header, encoded, chunk, more) {
            reveal(on_course);
            let after = text_run(start, more);
            lemma_count(after.chunks.dom(), header.total_packets);
        }
    }
}

/// Of what a sender makes of a file, in whatever order and however often the
/// packets come, exactly the packet with which all have come brings out the file, as
/// long as there are no more of them than a header may announce.
pub proof fn law_text_sent_file_comes_with_the_last_packet(
    file: Seq<u8>,
    filename: Seq<char>,
    chunk: nat,
    compressed: Seq<u8>,
    encoded: Seq<char>,
    packets: Seq<Seq<char>>,
    next: Seq<char>,
)
    requires
        text_sendable(file, filename, chunk),
        part_count(encoded.len(), chunk) <= MAX_TOTAL_PACKETS,
        forall|k: int|
            0 <= k < packets.len() ==> text_packets(
                text_header(file, filename, part_count(encoded.len(), chunk)),
                encoded,
                chunk,
            ).contains(#[trigger] packets[k]),
        text_packets(
            text_header(file, filename, part_count(encoded.len(), chunk)),
            encoded,
            chunk,
        ).contains(next),
    ensures
        packed_text(file, compressed, encoded) ==> completes_with_the_last(
            text_header(file, filename, part_count(encoded.len(), chunk)),
            encoded,
            chunk,
            file,
            packets,
            next,
        ),
{
    if packed_text(file, compressed, encoded) {
        let header = text_header(file, filename, part_count(encoded.len(), chunk));
        lemma_packed_transfer(file, filename, chunk, compressed, encoded);
        law_text_file_comes_with_the_last_packet(header, encoded, chunk, file, packets, next);
    }
}

/// In parts of the usual size or longer, of what a sender makes of any file, in
/// whatever order and however often the packets come, exactly the packet with which
/// all have come brings out the file.
pub proof fn law_text_every_file_comes_with_the_last_packet(
    file: Seq<u8>,
    filename: Seq<char>,
    chunk: nat,
    compressed: Seq<u8>,
    encoded: Seq<char>,
    packets: Seq<Seq<char>>,
    next: Seq<char>,
)
    requires
        text_sendable(file, filename, chunk),
        chunk >= DEFAULT_DATA_CHUNK_CHARS || always_fits(file.len(), chunk),
        forall|k: int|
            0 <= k < packets.len() ==> text_packets(
                text_header(file, filename, part_count(encoded.len(), chunk)),
                encoded,
                chunk,
            ).contains(#[trigger] packets[k]),
        text_packets(
            text_header(file, filename, part_count(encoded.len(), chunk)),
            encoded,
            chunk,
        ).contains(next),
    ensures
        packed_text(file, compressed, encoded) ==> completes_with_the_last(
            text_header(file, filename, part_count(encoded.len(), chunk)),
            encoded,
            chunk,
            file,
            packets,
            next,
        ),
{
    if packed_text(file, compressed, encoded) {
        law_text_parts_fit(file, chunk, compressed, encoded);
        law_text_sent_file_comes_with_the_last_packet(
            file,
            filename,
            chunk,
            compressed,
            encoded,
            packets,
            next,
        );
    }
}

/// Between packets, an attempt to finish brings nothing new.
pub proof fn law_text_is_at_rest_between_packets(state: TextView, packet: Seq<char>)
    requires
        state.wf(),
    ensures
        TextView::empty().at_rest(),
        state.at_rest() ==> state.processed(packet).0.at_rest(),
{
}

} // verus!
