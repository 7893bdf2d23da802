//! The receiver of the binary transport.

use crate::binary::{
    binary_magic, has_binary_magic, parse_binary_header, parsed_header, BinaryHeader,
    BinaryHeaderView, BINARY_DATA_FIXED_BYTES, BINARY_DATA_TYPE, BINARY_GROUP_SIZE,
    BINARY_HEADER_TYPE, BINARY_PARITY_TYPE,
};
use crate::bytes::{
    copy_range, pad, padded, read_u32, read_u64, u32_at, u64_at, xor_bytes, xor_into,
};
use crate::chars::{bytes_hex, checksum_text, hex, hex_bytes};
use crate::ranges::{missing_list, missing_text, request_packet, request_text};
use crate::store::{
    all_present, byte_views, file_view, flag_bytes, flags, in_order, lemma_bounded_finite,
    lemma_count, lemma_in_order, packet_views, presence, present,
};
use crate::transfer::{
    joined, lemma_chunk_count, piece_len, restore, BINARY_MAX_PENDING_PACKETS, DEFLATE_CODEC,
};
use std::collections::HashMap;
use vstd::prelude::*;

verus! {

/// What a receiver knows: the header, the chunks and the parity packets by their
/// number, the packets that wait for a header, how many chunks were rebuilt,
/// and whether the file was handed out.
#[verifier::ext_equal]
pub struct BinaryView {
    pub header: Option<BinaryHeaderView>,
    pub chunks: Map<usize, Seq<u8>>,
    pub parity: Map<usize, Seq<u8>>,
    pub pending: Seq<Seq<u8>>,
    pub recovered: nat,
    pub complete: bool,
}

/// Whether a packet is a header packet by its first four bytes.
pub open spec fn is_header_packet(packet: Seq<u8>) -> bool {
    packet.len() >= 4 && packet.take(3) == binary_magic() && packet[3] == BINARY_HEADER_TYPE
}

/// Whether a packet is a data or parity packet, long enough to say for what.
pub open spec fn is_symbol_packet(packet: Seq<u8>) -> bool {
    &&& packet.len() >= BINARY_DATA_FIXED_BYTES
    &&& packet.take(3) == binary_magic()
    &&& packet[3] == BINARY_DATA_TYPE || packet[3] == BINARY_PARITY_TYPE
}

/// The number of the group that a chunk belongs to.
pub open spec fn group_of(index: usize) -> usize {
    index / BINARY_GROUP_SIZE
}

/// Whether a chunk can be rebuilt: it is missing, alone in its group, and the
/// group's parity is there.
pub open spec fn rebuildable(
    header: BinaryHeaderView,
    chunks: Map<usize, Seq<u8>>,
    parity: Map<usize, Seq<u8>>,
    index: usize,
) -> bool {
    &&& header.fec_group_size > 0
    &&& index < header.file.data_packets
    &&& !chunks.contains_key(index)
    &&& parity.contains_key(group_of(index))
    &&& forall|other: usize|
        #![trigger chunks.contains_key(other)]
        other < header.file.data_packets && group_of(other) == group_of(index) && other != index
            ==> chunks.contains_key(other)
}

/// A payload with the chunks from `start` up to `end` mixed in, except one.
pub open spec fn mixed_in(
    payload: Seq<u8>,
    chunks: Map<usize, Seq<u8>>,
    start: nat,
    end: nat,
    except: nat,
) -> Seq<u8>
    decreases end,
{
    if end <= start {
        payload
    } else {
        let last = (end - 1) as nat;
        let before = mixed_in(payload, chunks, start, last, except);
        if last == except {
            before
        } else {
            xor_bytes(before, chunks[last as usize])
        }
    }
}

/// The chunk that the parity and the other chunks of its group give.
pub open spec fn rebuilt(
    header: BinaryHeaderView,
    chunks: Map<usize, Seq<u8>>,
    parity: Map<usize, Seq<u8>>,
    index: usize,
) -> Seq<u8> {
    let group = group_of(index);
    mixed_in(
        parity[group],
        chunks,
        group as nat * header.fec_group_size,
        header.group_end(group as nat),
        index as nat,
    )
}

/// The chunks, with those rebuilt that can be and belong to a group below `limit`.
pub open spec fn with_rebuilt_below(
    header: BinaryHeaderView,
    chunks: Map<usize, Seq<u8>>,
    parity: Map<usize, Seq<u8>>,
    limit: nat,
) -> Map<usize, Seq<u8>> {
    Map::new(
        |index: usize|
            chunks.contains_key(index) || (rebuildable(header, chunks, parity, index) && group_of(
                index,
            ) < limit),
        |index: usize|
            if chunks.contains_key(index) {
                chunks[index]
            } else {
                rebuilt(header, chunks, parity, index)
            },
    )
}

/// The chunks, with every chunk rebuilt that can be.
pub open spec fn with_rebuilt(
    header: BinaryHeaderView,
    chunks: Map<usize, Seq<u8>>,
    parity: Map<usize, Seq<u8>>,
) -> Map<usize, Seq<u8>> {
    with_rebuilt_below(header, chunks, parity, header.group_count())
}

impl BinaryView {
    /// A receiver that knows nothing.
    pub open spec fn empty() -> BinaryView {
        BinaryView {
            header: None,
            chunks: Map::empty(),
            parity: Map::empty(),
            pending: Seq::empty(),
            recovered: 0,
            complete: false,
        }
    }

    /// A receiver that knows a header and nothing else.
    pub open spec fn begun(header: BinaryHeaderView) -> BinaryView {
        BinaryView { header: Some(header), ..BinaryView::empty() }
    }

    /// How many chunks the transfer has; none before the header.
    pub open spec fn total(self) -> nat {
        match self.header {
            Some(header) => header.file.data_packets,
            None => 0,
        }
    }

    /// Which chunks are there.
    pub open spec fn present(self) -> Seq<bool> {
        present(self.chunks.dom(), self.total())
    }

    pub open spec fn wf(self) -> bool {
        &&& self.chunks.dom().finite()
        &&& self.recovered <= self.chunks.dom().len()
        &&& self.pending.len() <= BINARY_MAX_PENDING_PACKETS
        &&& forall|i: int|
            0 <= i < self.pending.len() ==> !is_header_packet(#[trigger] self.pending[i])
        &&& match self.header {
            None => {
                &&& self.chunks == Map::<usize, Seq<u8>>::empty()
                &&& self.parity == Map::<usize, Seq<u8>>::empty()
                &&& !self.complete
            },
            Some(header) => {
                &&& header.acceptable()
                &&& self.pending.len() == 0
                &&& forall|index: usize| #[trigger]
                    self.chunks.contains_key(index) ==> index < header.file.data_packets
                        && self.chunks[index].len() == header.file.chunk_size
                &&& forall|group: usize| #[trigger]
                    self.parity.contains_key(group) ==> group < header.group_count()
                        && self.parity[group].len() == header.file.chunk_size
                &&& self.complete ==> all_present(self.chunks.dom(), header.file.data_packets)
            },
        }
    }

    /// The receiver after every chunk that can be rebuilt was rebuilt.
    pub open spec fn repaired(self) -> BinaryView {
        match self.header {
            None => self,
            Some(header) => {
                let chunks = with_rebuilt(header, self.chunks, self.parity);
                BinaryView {
                    chunks,
                    recovered: (self.recovered + chunks.dom().len() - self.chunks.dom().len()) as nat,
                    ..self
                }
            },
        }
    }

    /// The receiver after an attempt to put the file together, and the file if
    /// it was handed out now.
    pub open spec fn finished(self) -> (BinaryView, Option<Seq<u8>>) {
        match self.header {
            Some(header) => if !self.complete && all_present(self.chunks.dom(), self.total()) {
                match header.file.restored(in_order(self.chunks, self.total())) {
                    Some(file) => (BinaryView { complete: true, ..self }, Some(file)),
                    None => (self, None),
                }
            } else {
                (self, None)
            },
            None => (self, None),
        }
    }

    /// Whether an attempt to finish brings nothing new.
    pub open spec fn at_rest(self) -> bool {
        self.finished() == (self, None::<Seq<u8>>)
    }

    /// The receiver with the payload of a data or parity packet added, if the
    /// packet fits the header.
    pub open spec fn stored(self, packet: Seq<u8>) -> Option<BinaryView> {
        let header = self.header->0;
        let number = u32_at(packet, 12);
        let payload = packet.skip(BINARY_DATA_FIXED_BYTES as int);
        if !is_symbol_packet(packet) || self.header is None || u64_at(packet, 4)
            != header.file.checksum {
            None
        } else if packet[3] == BINARY_DATA_TYPE {
            if number < header.file.data_packets && payload.len() == header.file.expected_len(
                number,
            ) {
                Some(
                    BinaryView {
                        chunks: self.chunks.insert(
                            number as usize,
                            padded(payload, header.file.chunk_size),
                        ),
                        ..self
                    },
                )
            } else {
                None
            }
        } else if number < header.group_count() && payload.len() == header.file.chunk_size {
            if self.parity.contains_key(number as usize) {
                Some(self)
            } else {
                Some(BinaryView { parity: self.parity.insert(number as usize, payload), ..self })
            }
        } else {
            None
        }
    }

    /// The receiver after a data or parity packet, and the file if it was handed
    /// out now.
    pub open spec fn accepted(self, packet: Seq<u8>) -> (BinaryView, Option<Seq<u8>>) {
        match self.stored(packet) {
            Some(next) => next.repaired().finished(),
            None => (self, None),
        }
    }

    /// The receiver after a list of packets that had to wait, and the file that
    /// was handed out last.
    pub open spec fn replayed(self, list: Seq<Seq<u8>>) -> (BinaryView, Option<Seq<u8>>)
        decreases list.len(),
    {
        if list.len() == 0 {
            (self, None)
        } else {
            let (before, earlier) = self.replayed(list.drop_last());
            let (after, file) = before.accepted(list.last());
            (
                after,
                if file is Some {
                    file
                } else {
                    earlier
                },
            )
        }
    }

    /// The receiver after a header. The header of another transfer starts anew,
    /// with the packets that waited.
    pub open spec fn installed(self, header: BinaryHeaderView) -> (BinaryView, Option<Seq<u8>>) {
        if self.header is Some && self.header->0.file.checksum == header.file.checksum {
            self.finished()
        } else {
            let (after, file) = BinaryView::begun(header).replayed(self.pending);
            if file is Some {
                (after, file)
            } else {
                after.finished()
            }
        }
    }

    /// The receiver with a packet put aside, as long as there is room.
    pub open spec fn waiting(self, packet: Seq<u8>) -> BinaryView {
        if self.header is None && self.pending.len() < BINARY_MAX_PENDING_PACKETS {
            BinaryView { pending: self.pending.push(packet), ..self }
        } else {
            self
        }
    }

    /// The receiver after a packet, and the file if it was handed out now.
    pub open spec fn processed(self, packet: Seq<u8>) -> (BinaryView, Option<Seq<u8>>) {
        if is_header_packet(packet) {
            match parsed_header(packet) {
                Some(header) => self.installed(header),
                None => (self, None),
            }
        } else if packet.len() >= 4 && packet.take(3) == binary_magic() && !is_symbol_packet(
            packet,
        ) {
            (self, None)
        } else if self.header is None {
            (self.waiting(packet), None)
        } else {
            self.accepted(packet)
        }
    }
}

// ---------------------------------------------------------------------------
// The executable receiver

/// The state of a receiver.
#[derive(Debug)]
pub struct BinaryReceiverState {
    pub header: Option<BinaryHeader>,
    pub chunks: HashMap<usize, Vec<u8>>,
    pub parity: HashMap<usize, Vec<u8>>,
    pub pending: Vec<Vec<u8>>,
    pub received_packets: usize,
    pub recovered_packets: usize,
    pub complete: bool,
}

impl View for BinaryReceiverState {
    type V = BinaryView;

    open spec fn view(&self) -> BinaryView {
        BinaryView {
            header: match self.header {
                Some(header) => Some(header@),
                None => None,
            },
            chunks: byte_views(self.chunks@),
            parity: byte_views(self.parity@),
            pending: packet_views(self.pending@),
            recovered: self.recovered_packets as nat,
            complete: self.complete,
        }
    }
}

impl BinaryReceiverState {
    pub open spec fn wf(&self) -> bool {
        &&& self.received_packets == self.chunks@.dom().len()
        &&& self@.wf()
    }
}

impl Default for BinaryReceiverState {
    /// A receiver that knows nothing.
    fn default() -> (state: BinaryReceiverState)
        ensures
            state.wf(),
            state@ == BinaryView::empty(),
    {
        broadcast use vstd::std_specs::hash::group_hash_axioms;

        let state = BinaryReceiverState {
            header: None,
            chunks: HashMap::new(),
            parity: HashMap::new(),
            pending: Vec::new(),
            received_packets: 0,
            recovered_packets: 0,
            complete: false,
        };
        assert(state@ =~= BinaryView::empty());
        state
    }
}

proof fn lemma_mixed_in_agrees(
    payload: Seq<u8>,
    a: Map<usize, Seq<u8>>,
    b: Map<usize, Seq<u8>>,
    start: nat,
    end: nat,
    except: nat,
)
    requires
        end <= usize::MAX,
        forall|i: usize| start <= i < end && i != except ==> #[trigger] a[i] == b[i],
    ensures
        mixed_in(payload, a, start, end, except) == mixed_in(payload, b, start, end, except),
    decreases end,
{
    if end > start {
        let last = (end - 1) as nat;
        lemma_mixed_in_agrees(payload, a, b, start, last, except);
        if last != except {
            assert(a[last as usize] == b[last as usize]);
        }
    }
}

proof fn lemma_mixed_in_length(
    payload: Seq<u8>,
    chunks: Map<usize, Seq<u8>>,
    start: nat,
    end: nat,
    except: nat,
)
    ensures
        mixed_in(payload, chunks, start, end, except).len() == payload.len(),
    decreases end,
{
    if end > start {
        lemma_mixed_in_length(payload, chunks, start, (end - 1) as nat, except);
    }
}

/// Rebuilding keeps a receiver well-formed.
pub proof fn lemma_repaired_wf(state: BinaryView)
    requires
        state.wf(),
    ensures
        state.repaired().wf(),
        state.chunks.dom().len() <= state.repaired().chunks.dom().len(),
{
    if let Some(header) = state.header {
        let after = with_rebuilt(header, state.chunks, state.parity);
        lemma_bounded_finite(after.dom(), header.file.data_packets);
        assert(state.chunks.dom().subset_of(after.dom()));
        vstd::set_lib::lemma_len_subset(state.chunks.dom(), after.dom());
        assert forall|index: usize| #[trigger] after.contains_key(index) implies after[index].len()
            == header.file.chunk_size by {
            if !state.chunks.contains_key(index) {
                assert(state.parity.contains_key(group_of(index)));
                let group = group_of(index);
                lemma_mixed_in_length(
                    state.parity[group],
                    state.chunks,
                    group as nat * header.fec_group_size,
                    header.group_end(group as nat),
                    index as nat,
                );
            }
        }
    }
}

/// How long the payload of a data packet is.
pub fn binary_expected_len(header: &BinaryHeader, index: usize) -> (length: usize)
    requires
        header@.acceptable(),
        index < header.data_packets,
    ensures
        length == header@.file.expected_len(index as nat),
{
    assert(index * header.chunk_size <= 10_000 * 1_800) by (nonlinear_arith)
        requires
            index <= 10_000,
            header.chunk_size <= 1_800,
    ;
    piece_len(header.compressed_size, header.chunk_size, index)
}

/// The one missing chunk of a group, if there is exactly one.
fn lone_gap(chunks: &HashMap<usize, Vec<u8>>, start: usize, end: usize) -> (gap: Option<usize>)
    requires
        start <= end,
    ensures
        gap matches Some(index) ==> {
            &&& start <= index < end
            &&& !chunks@.contains_key(index)
            &&& forall|other: usize|
                start <= other < end && other != index ==> #[trigger] chunks@.contains_key(other)
        },
        gap is None ==> forall|index: usize|
            start <= index < end && !(#[trigger] chunks@.contains_key(index)) ==> exists|
                other: usize,
            |
                start <= other < end && other != index && !(#[trigger] chunks@.contains_key(other)),
{
    broadcast use vstd::std_specs::hash::group_hash_axioms;

    let mut gap: Option<usize> = None;
    let mut index: usize = start;
    while index < end
        invariant
            start <= index <= end,
            gap is None ==> forall|other: usize|
                start <= other < index ==> #[trigger] chunks@.contains_key(other),
            gap matches Some(found) ==> {
                &&& start <= found < index
                &&& !chunks@.contains_key(found)
                &&& forall|other: usize|
                    start <= other < index && other != found ==> #[trigger] chunks@.contains_key(
                        other,
                    )
            },
        decreases end - index,
    {
        if !chunks.contains_key(&index) {
            match gap {
                None => {
                    gap = Some(index);
                },
                Some(found) => {
                    assert(!chunks@.contains_key(found));
                    assert(!chunks@.contains_key(index));
                    return None;
                },
            }
        }
        index = index + 1;
    }
    gap
}

/// Rebuilds every chunk that can be.
#[verifier::rlimit(40)]
pub fn try_binary_recover(state: &mut BinaryReceiverState)
    requires
        old(state).wf(),
    ensures
        final(state).wf(),
        final(state)@ == old(state)@.repaired(),
{
    broadcast use vstd::std_specs::hash::group_hash_axioms;

    let ghost before = state@;
    let (data_packets, fec_group_size, chunk_size): (usize, usize, usize) = match &state.header {
        None => {
            assert(state@ =~= before.repaired());
            return;
        },
        Some(header) => (header.data_packets, header.fec_group_size, header.chunk_size),
    };
    let ghost header = before.header->0;
    proof {
        lemma_repaired_wf(before);
    }
    if fec_group_size == 0 {
        assert(with_rebuilt(header, before.chunks, before.parity) =~= before.chunks);
        assert(state@ =~= before.repaired());
        return;
    }
    let groups: usize = (data_packets + (BINARY_GROUP_SIZE - 1)) / BINARY_GROUP_SIZE;
    assert(groups == header.group_count());
    let mut group: usize = 0;
    assert(with_rebuilt_below(header, before.chunks, before.parity, 0) =~= before.chunks);
    assert(state.chunks@.dom() =~= state@.chunks.dom());
    while group < groups
        invariant
            group <= groups == header.group_count(),
            groups == (data_packets + 7) / 8,
            before.wf(),
            before.header == Some(header),
            header.file.data_packets == data_packets,
            header.fec_group_size == fec_group_size == BINARY_GROUP_SIZE,
            header.file.chunk_size == chunk_size,
            state@ == (BinaryView {
                chunks: state@.chunks,
                recovered: state@.recovered,
                ..before
            }),
            state@.chunks == with_rebuilt_below(
                header,
                before.chunks,
                before.parity,
                group as nat,
            ),
            state.received_packets == state.chunks@.dom().len(),
            state@.recovered - before.recovered == state.received_packets
                - before.chunks.dom().len(),
            before.repaired().wf(),
        decreases groups - group,
    {
        let ghost current = state@.chunks;
        let start: usize = group * BINARY_GROUP_SIZE;
        let end: usize = if start + BINARY_GROUP_SIZE < data_packets {
            start + BINARY_GROUP_SIZE
        } else {
            data_packets
        };
        assert(end == header.group_end(group as nat));
        proof {
            assert forall|i: usize| start <= i < end implies #[trigger] current.contains_key(i)
                == before.chunks.contains_key(i) && (current.contains_key(i) ==> current[i]
                == before.chunks[i]) by {
                assert(group_of(i) == group);
            }
        }
        let gap: Option<usize> = lone_gap(&state.chunks, start, end);
        let found: Option<Vec<u8>> = match state.parity.get(&group) {
            None => None,
            Some(parity) => {
                assert(before.parity.contains_key(group) && before.parity[group] == parity@);
                Some(vstd::slice::slice_to_vec(parity.as_slice()))
            },
        };
        let ghost there = found is Some;
        assert(there == before.parity.contains_key(group));
        proof {
            assert forall|i: usize| start <= i < end implies #[trigger] state.chunks@.contains_key(i)
                == before.chunks.contains_key(i) by {
                assert(state.chunks@.contains_key(i) == current.contains_key(i));
            }
            if gap is None {
                assert forall|i: usize| group_of(i) == group implies !rebuildable(
                    header,
                    before.chunks,
                    before.parity,
                    i,
                ) by {
                    if i < data_packets && !before.chunks.contains_key(i) {
                        assert(start <= i < end);
                        assert(!state.chunks@.contains_key(i));
                        let other = choose|other: usize|
                            start <= other < end && other != i && !(
                            #[trigger] state.chunks@.contains_key(other));
                        assert(!before.chunks.contains_key(other));
                        assert(group_of(other) == group);
                    }
                }
            }
        }
        match (gap, found) {
            (Some(missing), Some(parity)) => {
                let mut value: Vec<u8> = parity;
                let ghost payload = value@;
                let mut index: usize = start;
                while index < end
                    invariant
                        start <= index <= end,
                        start <= missing < end,
                        state.chunks@.dom() == current.dom(),
                        current == byte_views(state.chunks@),
                        forall|other: usize|
                            start <= other < end && other != missing
                                ==> #[trigger] state.chunks@.contains_key(other),
                        value@ == mixed_in(
                            payload,
                            current,
                            start as nat,
                            index as nat,
                            missing as nat,
                        ),
                    decreases end - index,
                {
                    if index != missing {
                        assert(state.chunks@.contains_key(index));
                        match state.chunks.get(&index) {
                            Some(chunk) => {
                                assert(current[index] == chunk@);
                                xor_into(&mut value, chunk.as_slice());
                            },
                            None => {
                                assert(false);
                            },
                        }
                    }
                    index = index + 1;
                }
                proof {
                    assert forall|i: usize| start <= i < end && i != missing implies #[trigger] current[i]
                        == before.chunks[i] by {
                        assert(state.chunks@.contains_key(i));
                        assert(current.contains_key(i));
                    }
                    lemma_mixed_in_agrees(
                        payload,
                        current,
                        before.chunks,
                        start as nat,
                        end as nat,
                        missing as nat,
                    );
                    assert(group_of(missing) == group);
                    assert forall|other: usize|
                        #![trigger before.chunks.contains_key(other)]
                        other < data_packets && group_of(other) == group && other
                            != missing implies before.chunks.contains_key(other) by {
                        assert(start <= other < end);
                        assert(state.chunks@.contains_key(other));
                    }
                    assert(!state.chunks@.contains_key(missing));
                    assert(rebuildable(header, before.chunks, before.parity, missing));
                    assert(value@ == rebuilt(header, before.chunks, before.parity, missing));
                    lemma_room(state, header);
                }
                let ghost value_view = value@;
                let ghost count = state.chunks@.dom().len();
                state.chunks.insert(missing, value);
                state.received_packets = state.received_packets + 1;
                state.recovered_packets = state.recovered_packets + 1;
                assert(state@.chunks =~= current.insert(missing, value_view));
                assert(state.chunks@.dom().len() == count + 1);
                proof {
                    let next = with_rebuilt_below(
                        header,
                        before.chunks,
                        before.parity,
                        (group + 1) as nat,
                    );
                    assert forall|i: usize| next.contains_key(i) == state@.chunks.contains_key(i) by {
                        if group_of(i) == group && i != missing && rebuildable(
                            header,
                            before.chunks,
                            before.parity,
                            i,
                        ) {
                            assert(start <= i < end);
                            assert(state.chunks@.contains_key(i));
                        }
                    }
                    assert(state@.chunks =~= next);
                }
            },
            _ => {
                assert(state@.chunks =~= with_rebuilt_below(
                    header,
                    before.chunks,
                    before.parity,
                    (group + 1) as nat,
                ));
            },
        }
        group = group + 1;
    }
    assert(state.chunks@.dom() =~= state@.chunks.dom());
    assert(state@ =~= before.repaired());
}

/// There is room for one more chunk below the chunk count.
proof fn lemma_room(state: &BinaryReceiverState, header: BinaryHeaderView)
    requires
        header.acceptable(),
        state.received_packets == state.chunks@.dom().len(),
        state.recovered_packets <= state.received_packets,
        forall|i: usize| #[trigger]
            state@.chunks.contains_key(i) ==> i < header.file.data_packets,
    ensures
        state.received_packets <= header.file.data_packets,
{
    broadcast use vstd::std_specs::hash::group_hash_axioms;

    assert(state.chunks@.dom() =~= state@.chunks.dom());
    lemma_count(state.chunks@.dom(), header.file.data_packets);
}


/// Puts the file together, if every chunk is there, and hands it out if it is
/// the one announced.
pub fn try_binary_assemble(state: &mut BinaryReceiverState) -> (file: Option<Vec<u8>>)
    requires
        old(state).wf(),
    ensures
        final(state).wf(),
        (final(state)@, file_view(file)) == old(state)@.finished(),
{
    broadcast use vstd::std_specs::hash::group_hash_axioms;

    let ghost before = state@;
    let file: Option<Vec<u8>> = match &state.header {
        None => None,
        Some(header) => {
            assert(before.header == Some(header@));
            assert(state.chunks@.dom() =~= before.chunks.dom());
            proof {
                lemma_count(before.chunks.dom(), header@.file.data_packets);
                lemma_chunk_count(header.compressed_size as nat, header.chunk_size as nat);
            }
            if state.complete || state.received_packets != header.data_packets {
                None
            } else {
                let mut encoded: Vec<u8> = Vec::new();
                let mut index: usize = 0;
                assert(joined(in_order(before.chunks, 0)) =~= Seq::<u8>::empty());
                assert(0 * header.chunk_size == 0);
                while index < header.data_packets
                    invariant
                        index <= header.data_packets,
                        before.wf(),
                        before.header == Some(header@),
                        before.chunks == byte_views(state.chunks@),
                        all_present(before.chunks.dom(), header@.file.data_packets),
                        encoded@ == joined(in_order(before.chunks, index as nat)),
                        encoded@.len() == index * header.chunk_size,
                    decreases header.data_packets - index,
                {
                    assert(before.chunks.dom().contains(index));
                    assert(state.chunks@.contains_key(index));
                    match state.chunks.get(&index) {
                        Some(chunk) => {
                            assert(before.chunks[index] == chunk@);
                            encoded.extend_from_slice(chunk.as_slice());
                            proof {
                                lemma_in_order(before.chunks, index as nat);
                                assert((index + 1) * header.chunk_size == index * header.chunk_size
                                    + header.chunk_size) by (nonlinear_arith);
                            }
                        },
                        None => {
                            assert(false);
                        },
                    }
                    index = index + 1;
                }
                encoded.truncate(header.compressed_size);
                assert(encoded@ == joined(in_order(before.chunks, header@.file.data_packets)).take(
                    header.compressed_size as int,
                ));
                restore(
                    encoded,
                    header.codec,
                    header.filename.as_str(),
                    header.file_size,
                    header.checksum,
                    &header.digest,
                )
            }
        },
    };
    if file.is_some() {
        state.complete = true;
        assert(state@ =~= (BinaryView { complete: true, ..before }));
    }
    file
}

/// Adding a packet keeps a receiver well-formed.
pub proof fn lemma_stored_wf(state: BinaryView, packet: Seq<u8>)
    requires
        state.wf(),
    ensures
        state.stored(packet) matches Some(next) ==> next.wf() && next.header == state.header,
{
    if let Some(next) = state.stored(packet) {
        let header = state.header->0;
        lemma_chunk_count(header.file.compressed_size, header.file.chunk_size);
    }
}

/// Takes in a data or parity packet.
pub fn accept_binary_symbol(state: &mut BinaryReceiverState, packet: &[u8]) -> (file: Option<
    Vec<u8>,
>)
    requires
        old(state).wf(),
        old(state)@.header is Some,
    ensures
        final(state).wf(),
        (final(state)@, file_view(file)) == old(state)@.accepted(packet@),
        final(state)@.header == old(state)@.header,
{
    broadcast use vstd::std_specs::hash::group_hash_axioms;

    let ghost before = state@;
    proof {
        lemma_stored_wf(before, packet@);
    }
    if packet.len() < BINARY_DATA_FIXED_BYTES || !has_binary_magic(packet) {
        return None;
    }
    let kind: u8 = packet[3];
    if kind != BINARY_DATA_TYPE && kind != BINARY_PARITY_TYPE {
        return None;
    }
    let checksum: u64 = read_u64(packet, 4)?;
    let number: usize = read_u32(packet, 12)?;
    let payload: Vec<u8> = copy_range(packet, BINARY_DATA_FIXED_BYTES, packet.len());
    assert(payload@ =~= packet@.skip(16));
    match &state.header {
        None => {
            return None;
        },
        Some(header) => {
            assert(before.header == Some(header@));
            if checksum != header.checksum {
                return None;
            }
            if kind == BINARY_DATA_TYPE {
                if number >= header.data_packets || payload.len() != binary_expected_len(
                    header,
                    number,
                ) {
                    return None;
                }
                let chunk: Vec<u8> = pad(payload.as_slice(), header.chunk_size);
                let ghost value = chunk@;
                proof {
                    assert(state.chunks@.dom() =~= before.chunks.dom());
                    lemma_count(before.chunks.dom(), header@.file.data_packets);
                }
                if state.chunks.insert(number, chunk).is_none() {
                    state.received_packets = state.received_packets + 1;
                }
                assert(state@.chunks =~= before.chunks.insert(number, value));
            } else {
                let groups: usize = if header.fec_group_size == 0 {
                    0
                } else {
                    (header.data_packets + (BINARY_GROUP_SIZE - 1)) / BINARY_GROUP_SIZE
                };
                assert(groups == header@.group_count());
                if number >= groups || payload.len() != header.chunk_size {
                    return None;
                }
                let ghost value = payload@;
                if !state.parity.contains_key(&number) {
                    state.parity.insert(number, payload);
                    assert(state@.parity =~= before.parity.insert(number, value));
                }
            }
        },
    }
    assert(state@ =~= before.stored(packet@)->0);
    assert(state.chunks@.dom() =~= state@.chunks.dom());
    proof {
        lemma_repaired_wf(state@);
    }
    try_binary_recover(state);
    try_binary_assemble(state)
}

/// Takes in a header.
pub fn install_binary_header(state: &mut BinaryReceiverState, header: BinaryHeader) -> (file: Option<
    Vec<u8>,
>)
    requires
        old(state).wf(),
        header@.acceptable(),
    ensures
        final(state).wf(),
        (final(state)@, file_view(file)) == old(state)@.installed(header@),
{
    broadcast use vstd::std_specs::hash::group_hash_axioms;

    let ghost before = state@;
    let is_new: bool = match &state.header {
        None => true,
        Some(current) => current.checksum != header.checksum,
    };
    if !is_new {
        return try_binary_assemble(state);
    }
    let mut pending: Vec<Vec<u8>> = Vec::new();
    std::mem::swap(&mut pending, &mut state.pending);
    assert(packet_views(pending@) == before.pending);
    let ghost announced = header@;
    *state = BinaryReceiverState {
        header: Some(header),
        chunks: HashMap::new(),
        parity: HashMap::new(),
        pending: Vec::new(),
        received_packets: 0,
        recovered_packets: 0,
        complete: false,
    };
    let ghost fresh = BinaryView::begun(announced);
    assert(state@ =~= fresh);
    let mut assembled: Option<Vec<u8>> = None;
    let mut next: usize = 0;
    let ghost list = packet_views(pending@);
    assert(list.take(0) =~= Seq::<Seq<u8>>::empty());
    while next < pending.len()
        invariant
            next <= pending@.len(),
            list == packet_views(pending@),
            state.wf(),
            state@.header is Some,
            (state@, file_view(assembled)) == fresh.replayed(list.take(next as int)),
        decreases pending@.len() - next,
    {
        let file: Option<Vec<u8>> = accept_binary_symbol(state, pending[next].as_slice());
        assert(list.take(next + 1).drop_last() =~= list.take(next as int));
        if file.is_some() {
            assembled = file;
        }
        next = next + 1;
    }
    assert(list.take(pending@.len() as int) =~= list);
    if assembled.is_some() {
        assembled
    } else {
        try_binary_assemble(state)
    }
}

/// Takes in a packet, and hands the file out once it can.
pub fn process_binary_packet(state: &mut BinaryReceiverState, packet: Vec<u8>) -> (file: Option<
    Vec<u8>,
>)
    requires
        old(state).wf(),
    ensures
        final(state).wf(),
        (final(state)@, file_view(file)) == old(state)@.processed(packet@),
{
    let ghost before = state@;
    if packet.len() >= 4 && has_binary_magic(packet.as_slice()) {
        if packet[3] == BINARY_HEADER_TYPE {
            return match parse_binary_header(packet.as_slice()) {
                Some(header) => install_binary_header(state, header),
                None => None,
            };
        }
        if packet.len() < BINARY_DATA_FIXED_BYTES || (packet[3] != BINARY_DATA_TYPE && packet[3]
            != BINARY_PARITY_TYPE) {
            return None;
        }
    }
    if state.header.is_none() {
        if state.pending.len() < BINARY_MAX_PENDING_PACKETS {
            let ghost bytes = packet@;
            state.pending.push(packet);
            assert(state@.pending =~= before.pending.push(bytes));
            assert(state@ =~= before.waiting(bytes));
        }
        return None;
    }
    accept_binary_symbol(state, packet.as_slice())
}

/// Forgets everything.
pub fn reset_binary_receiver(state: &mut BinaryReceiverState)
    ensures
        final(state).wf(),
        final(state)@ == BinaryView::empty(),
{
    *state = BinaryReceiverState::default();
}

// ---------------------------------------------------------------------------
// What a receiver shows

/// How many chunks a transfer has; none before the header.
fn binary_total(state: &BinaryReceiverState) -> (total: usize)
    ensures
        total == state@.total(),
{
    match &state.header {
        Some(header) => header.data_packets,
        None => 0,
    }
}

proof fn lemma_received(state: &BinaryReceiverState)
    requires
        state.wf(),
    ensures
        state.received_packets == state@.chunks.dom().len(),
        state.received_packets <= state@.total() <= BINARY_MAX_PENDING_PACKETS,
{
    assert(state.chunks@.dom() =~= state@.chunks.dom());
    lemma_count(state@.chunks.dom(), state@.total());
}

/// How many chunks are there, and how many there are in all.
pub fn binary_receiver_progress(state: &BinaryReceiverState) -> (progress: Vec<u32>)
    requires
        state.wf(),
    ensures
        progress@.len() == 2,
        progress@[0] == state@.chunks.dom().len(),
        progress@[1] == state@.total(),
{
    proof {
        lemma_received(state);
    }
    let mut progress: Vec<u32> = Vec::new();
    progress.push(state.received_packets as u32);
    progress.push(binary_total(state) as u32);
    progress
}

/// The file name; empty before the header.
pub fn binary_receiver_filename(state: &BinaryReceiverState) -> (name: String)
    ensures
        name@ == match state@.header {
            Some(header) => header.file.filename,
            None => Seq::<char>::empty(),
        },
{
    match &state.header {
        Some(header) => header.filename.clone(),
        None => String::new(),
    }
}

/// A one for each chunk that is there, a zero for each that is missing.
pub fn binary_receiver_packet_map(state: &BinaryReceiverState) -> (map: Vec<u8>)
    ensures
        map@ == flags(state@.present()),
{
    assert(state.chunks@.dom() =~= state@.chunks.dom());
    flag_bytes(&presence(&state.chunks, binary_total(state)))
}

/// The ranges of missing chunks.
pub fn binary_receiver_missing_ranges(state: &BinaryReceiverState) -> (text: String)
    ensures
        text@ == missing_text(state@.present()),
{
    assert(state.chunks@.dom() =~= state@.chunks.dom());
    missing_list(&presence(&state.chunks, binary_total(state)))
}

/// The request for the missing chunks; empty before the header.
pub fn binary_receiver_control_packet(state: &BinaryReceiverState) -> (text: String)
    ensures
        text@ == match state@.header {
            Some(header) => request_text(header.file.checksum, state@.present()),
            None => Seq::<char>::empty(),
        },
{
    assert(state.chunks@.dom() =~= state@.chunks.dom());
    match &state.header {
        Some(header) => request_packet(
            header.checksum,
            &presence(&state.chunks, header.data_packets),
        ),
        None => String::new(),
    }
}

/// The name of a codec.
pub open spec fn codec_text(codec: u8) -> Seq<char> {
    if codec == DEFLATE_CODEC {
        "deflate"@
    } else {
        "raw"@
    }
}

/// The codec one is named after Deflate, the other after the raw file.
pub proof fn law_codecs_have_names(codec: u8)
    ensures
        codec == 1 ==> codec_text(codec) == seq!['d', 'e', 'f', 'l', 'a', 't', 'e'],
        codec != 1 ==> codec_text(codec) == seq!['r', 'a', 'w'],
{
    reveal_strlit("deflate");
    reveal_strlit("raw");
    assert("deflate"@ =~= seq!['d', 'e', 'f', 'l', 'a', 't', 'e']);
    assert("raw"@ =~= seq!['r', 'a', 'w']);
}

/// The name of a codec.
pub fn codec_name(codec: u8) -> (name: String)
    ensures
        name@ == codec_text(codec),
{
    if codec == DEFLATE_CODEC {
        "deflate".to_owned()
    } else {
        "raw".to_owned()
    }
}

/// What a receiver reports of a transfer.
#[derive(Debug)]
pub struct BinaryReceiverInfo {
    pub filename: String,
    pub total_packets: usize,
    pub received_packets: usize,
    pub missing_packets: usize,
    pub file_size: usize,
    pub compressed_size: usize,
    pub checksum: Option<String>,
    pub sha256: Option<String>,
    pub codec: String,
    pub fec_group_size: usize,
    pub recovered_packets: usize,
    pub complete: bool,
}

impl BinaryReceiverInfo {
    /// Whether the report is true of a receiver.
    pub open spec fn reports(self, header: BinaryHeaderView, state: BinaryView) -> bool {
        &&& self.filename@ == header.file.filename
        &&& self.total_packets == header.file.data_packets
        &&& self.received_packets == state.chunks.dom().len()
        &&& self.missing_packets == header.file.data_packets - state.chunks.dom().len()
        &&& self.file_size == header.file.file_size
        &&& self.compressed_size == header.file.compressed_size
        &&& self.checksum is Some && self.checksum->0@ == hex(header.file.checksum as nat, 16)
        &&& self.sha256 is Some && self.sha256->0@ == hex_bytes(header.file.digest)
        &&& self.codec@ == codec_text(header.file.codec)
        &&& self.fec_group_size == header.fec_group_size
        &&& self.recovered_packets == state.recovered
        &&& self.complete == state.complete
    }
}

/// The report of a transfer; `None` before the header.
pub fn binary_receiver_info(state: &BinaryReceiverState) -> (info: Option<BinaryReceiverInfo>)
    requires
        state.wf(),
    ensures
        info is Some <==> state@.header is Some,
        info matches Some(report) ==> report.reports(state@.header->0, state@),
{
    proof {
        lemma_received(state);
    }
    match &state.header {
        None => None,
        Some(header) => Some(
            BinaryReceiverInfo {
                filename: header.filename.clone(),
                total_packets: header.data_packets,
                received_packets: state.received_packets,
                missing_packets: header.data_packets - state.received_packets,
                file_size: header.file_size,
                compressed_size: header.compressed_size,
                checksum: Some(checksum_text(header.checksum)),
                sha256: Some(bytes_hex(header.digest.as_slice())),
                codec: codec_name(header.codec),
                fec_group_size: header.fec_group_size,
                recovered_packets: state.recovered_packets,
                complete: state.complete,
            },
        ),
    }
}

} // verus!
