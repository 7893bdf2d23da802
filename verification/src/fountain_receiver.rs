//! The receiver of the fountain transport.

use crate::binary_receiver::{codec_name, codec_text};
use crate::bytes::{
    copy_range, pad, padded, read_u16, read_u32, read_u64, u16_at, u32_at, u64_at,
};
use crate::chars::{bytes_hex, checksum_text, hex, hex_bytes};
use crate::fountain::{
    fountain_magic, has_fountain_magic, parse_fountain_header, parsed_fountain_header,
    width_of_window, window_count, window_width, FountainHeader, FountainHeaderView,
    FOUNTAIN_DATA_FIXED_BYTES, FOUNTAIN_DATA_TYPE, FOUNTAIN_HEADER_TYPE,
    FOUNTAIN_REPAIR_FIXED_BYTES, FOUNTAIN_REPAIR_TYPE, FOUNTAIN_WINDOW_SIZE,
};
use crate::mask::usable_mask;
use crate::ranges::{missing_list, missing_text};
use crate::solving::{
    lemma_added_sized, lemma_added_wf, lemma_solved_keeps, lemma_solved_sized, sized,
};
use crate::store::{
    count_set, file_view, flag_bytes, flags, lemma_bounded_finite, lemma_count, packet_views,
};
use crate::transfer::{
    joined, lemma_chunk_count, piece_len, restore, BINARY_MAX_PENDING_PACKETS,
};
use crate::window::{EquationView, FountainEquation, FountainWindow, WindowView};
use std::collections::HashMap;
use vstd::prelude::*;

verus! {

/// What a receiver knows: the header, the windows by their number, the packets
/// that wait for a header, the keys of the symbols that came, the chunks that
/// came or were recovered, how many were recovered, and whether the file was
/// handed out.
#[verifier::ext_equal]
pub struct FountainView {
    pub header: Option<FountainHeaderView>,
    pub windows: Map<usize, WindowView>,
    pub pending: Seq<Seq<u8>>,
    pub seen: Set<u64>,
    pub received: Set<usize>,
    pub recovered: nat,
    pub complete: bool,
}

/// The windows by their number.
pub open spec fn window_views(map: Map<usize, FountainWindow>) -> Map<usize, WindowView> {
    map.map_values(|window: FountainWindow| window@)
}

/// The key of a symbol: its kind, the index or window it is for, and its mask.
pub open spec fn symbol_key(kind: u8, position: nat, mask: u32) -> nat {
    kind as nat * 0x1_0000_0000_0000 + position * 0x1_0000_0000 + mask as nat
}

/// The key of the data packet at an index.
pub open spec fn data_key(index: usize) -> u64 {
    symbol_key(FOUNTAIN_DATA_TYPE, index as nat, 0) as u64
}

/// Whether a packet is a header packet by its first four bytes.
pub open spec fn is_fountain_header(packet: Seq<u8>) -> bool {
    packet.len() >= 4 && packet.take(3) == fountain_magic() && packet[3] == FOUNTAIN_HEADER_TYPE
}

/// Whether a packet is a data packet, long enough to say for which chunk.
pub open spec fn is_fountain_data(packet: Seq<u8>) -> bool {
    &&& packet.len() >= FOUNTAIN_DATA_FIXED_BYTES
    &&& packet.take(3) == fountain_magic()
    &&& packet[3] == FOUNTAIN_DATA_TYPE
}

/// Whether a packet is a repair packet, long enough to say for which chunks.
pub open spec fn is_fountain_repair(packet: Seq<u8>) -> bool {
    &&& packet.len() >= FOUNTAIN_REPAIR_FIXED_BYTES
    &&& packet.take(3) == fountain_magic()
    &&& packet[3] == FOUNTAIN_REPAIR_TYPE
}

/// The chunk at an index, if it is known.
pub open spec fn chunk_at(windows: Map<usize, WindowView>, index: nat) -> Option<Seq<u8>> {
    let window = (index / FOUNTAIN_WINDOW_SIZE as nat) as usize;
    let local = index % FOUNTAIN_WINDOW_SIZE as nat;
    if windows.contains_key(window) && local < windows[window].chunks.len() {
        windows[window].chunks[local as int]
    } else {
        None
    }
}

/// Whether the first `count` chunks are known.
pub open spec fn all_known(windows: Map<usize, WindowView>, count: nat) -> bool {
    forall|i: nat| i < count ==> (#[trigger] chunk_at(windows, i)) is Some
}

/// The first `count` chunks.
pub open spec fn known_chunks(windows: Map<usize, WindowView>, count: nat) -> Seq<Seq<u8>> {
    Seq::new(count, |i: int| chunk_at(windows, i as nat)->0)
}

/// The indices of the chunks that a window knows among its first `count`.
pub open spec fn found_in(view: WindowView, window: usize, count: nat) -> Set<usize> {
    Set::new(
        |i: usize|
            i / FOUNTAIN_WINDOW_SIZE == window && i % FOUNTAIN_WINDOW_SIZE < count
                && view.chunks[(i % FOUNTAIN_WINDOW_SIZE) as int] is Some,
    )
}

impl FountainView {
    /// A receiver that knows nothing.
    pub open spec fn empty() -> FountainView {
        FountainView {
            header: None,
            windows: Map::empty(),
            pending: Seq::empty(),
            seen: Set::empty(),
            received: Set::empty(),
            recovered: 0,
            complete: false,
        }
    }

    /// A receiver that knows a header and nothing else.
    pub open spec fn begun(header: FountainHeaderView) -> FountainView {
        FountainView { header: Some(header), ..FountainView::empty() }
    }

    /// How many chunks the transfer has; none before the header.
    pub open spec fn total(self) -> nat {
        match self.header {
            Some(header) => header.file.data_packets,
            None => 0,
        }
    }

    /// Which chunks are known.
    pub open spec fn present(self) -> Seq<bool> {
        Seq::new(self.total(), |i: int| chunk_at(self.windows, i as nat) is Some)
    }

    pub open spec fn wf(self) -> bool {
        &&& self.seen.finite()
        &&& self.received.finite()
        &&& self.recovered <= self.received.len()
        &&& self.pending.len() <= BINARY_MAX_PENDING_PACKETS
        &&& forall|i: int|
            0 <= i < self.pending.len() ==> !is_fountain_header(#[trigger] self.pending[i])
        &&& match self.header {
            None => {
                &&& self.windows == Map::<usize, WindowView>::empty()
                &&& self.seen == Set::<u64>::empty()
                &&& self.received == Set::<usize>::empty()
                &&& !self.complete
            },
            Some(header) => {
                &&& header.acceptable()
                &&& self.pending.len() == 0
                &&& forall|i: usize| #[trigger]
                    self.received.contains(i) ==> i < header.file.data_packets
                &&& forall|w: usize| #[trigger]
                    self.windows.contains_key(w) ==> {
                        &&& w * FOUNTAIN_WINDOW_SIZE < header.file.data_packets
                        &&& self.windows[w].wf()
                        &&& self.windows[w].chunks.len() == window_width(
                            header.file.data_packets,
                            w as nat,
                        )
                        &&& sized(self.windows[w], header.file.chunk_size)
                    }
                &&& forall|i: usize|
                    i < header.file.data_packets && self.seen.contains(#[trigger] data_key(i))
                        ==> chunk_at(self.windows, i as nat) is Some
                &&& self.complete ==> all_known(self.windows, header.file.data_packets)
            },
        }
    }

    /// A window; one that was not needed so far is empty.
    pub open spec fn window_at(self, window: usize) -> WindowView {
        if self.windows.contains_key(window) {
            self.windows[window]
        } else {
            WindowView::empty(window_width(self.total(), window as nat))
        }
    }

    /// The window after one more equation, whose payload is the chunk `arrived`
    /// itself if there is one.
    pub open spec fn advanced(
        self,
        window: usize,
        equation: EquationView,
        arrived: Option<nat>,
    ) -> WindowView {
        let grown = self.window_at(window).added(equation);
        match arrived {
            Some(local) => grown.learned(local, equation.payload).solved(),
            None => grown.solved(),
        }
    }

    /// The receiver after an attempt to put the file together, and the file if
    /// it was handed out now.
    pub open spec fn finished(self) -> (FountainView, Option<Seq<u8>>) {
        match self.header {
            Some(header) => if !self.complete && all_known(self.windows, self.total()) {
                match header.file.restored(known_chunks(self.windows, self.total())) {
                    Some(file) => (FountainView { complete: true, ..self }, Some(file)),
                    None => (self, None),
                }
            } else {
                (self, None)
            },
            None => (self, None),
        }
    }

    /// Whether an attempt to finish brings nothing new.
    pub open spec fn at_rest(self) -> bool {
        self.finished() == (self, None::<Seq<u8>>)
    }

    /// The receiver with the chunk and the equation of a data packet added, if the
    /// packet fits the header and did not come before.
    pub open spec fn stored_data(self, packet: Seq<u8>) -> Option<FountainView> {
        let header = self.header->0;
        let index = u32_at(packet, 12);
        let payload = packet.skip(FOUNTAIN_DATA_FIXED_BYTES as int);
        let key = data_key(index as usize);
        if self.header is Some && is_fountain_data(packet) && u64_at(packet, 4)
            == header.file.checksum && index < header.file.data_packets && payload.len()
            == header.file.expected_len(index) && !self.seen.contains(key) {
            let window = (index / FOUNTAIN_WINDOW_SIZE as nat) as usize;
            let local = index % FOUNTAIN_WINDOW_SIZE as nat;
            let equation = EquationView {
                mask: 1u32 << (local as u32),
                payload: padded(payload, header.file.chunk_size),
            };
            Some(
                FountainView {
                    windows: self.windows.insert(
                        window,
                        self.advanced(window, equation, Some(local)),
                    ),
                    seen: self.seen.insert(key),
                    received: self.received.insert(index as usize),
                    ..self
                },
            )
        } else {
            None
        }
    }

    /// The receiver with the equation of a repair packet added, if the packet
    /// fits the header and did not come before. Chunks that are known now and did
    /// not come count as recovered.
    pub open spec fn stored_repair(self, packet: Seq<u8>) -> Option<FountainView> {
        let header = self.header->0;
        let number = u16_at(packet, 12);
        let mask = u32_at(packet, 14) as u32;
        let payload = packet.skip(FOUNTAIN_REPAIR_FIXED_BYTES as int);
        let width = window_width(header.file.data_packets, number);
        let key = symbol_key(FOUNTAIN_REPAIR_TYPE, number, mask) as u64;
        if self.header is Some && is_fountain_repair(packet) && u64_at(packet, 4)
            == header.file.checksum && number * FOUNTAIN_WINDOW_SIZE < header.file.data_packets
            && usable_mask(mask, width) && payload.len() == header.file.chunk_size
            && !self.seen.contains(key) {
            let window = number as usize;
            let next = self.advanced(window, EquationView { mask, payload }, None);
            let received = self.received.union(found_in(next, window, width));
            Some(
                FountainView {
                    windows: self.windows.insert(window, next),
                    seen: self.seen.insert(key),
                    received,
                    recovered: (self.recovered + received.len() - self.received.len()) as nat,
                    ..self
                },
            )
        } else {
            None
        }
    }

    /// The receiver with the equation of a data or repair packet added.
    pub open spec fn stored(self, packet: Seq<u8>) -> Option<FountainView> {
        if is_fountain_data(packet) {
            self.stored_data(packet)
        } else {
            self.stored_repair(packet)
        }
    }

    /// The receiver after a data or repair packet, and the file if it was handed
    /// out now. A packet that does not fit, or that came before, is discarded.
    pub open spec fn accepted(self, packet: Seq<u8>) -> (FountainView, Option<Seq<u8>>) {
        match self.stored(packet) {
            Some(next) => next.finished(),
            None => (self, None),
        }
    }

    /// The receiver after a list of packets that had to wait, and the file that
    /// was handed out last.
    pub open spec fn replayed(self, list: Seq<Seq<u8>>) -> (FountainView, Option<Seq<u8>>)
        decreases list.len(),
    {
        if list.len() == 0 {
            (self, None)
        } else {
            let (before, earlier) = self.replayed(list.drop_last());
            let (after, file) = before.accepted(list.last());
            (
                after,
                if file is Some {
                    file
                } else {
                    earlier
                },
            )
        }
    }

    /// The receiver after a header. The header of another transfer starts anew,
    /// with the packets that waited.
    pub open spec fn installed(self, header: FountainHeaderView) -> (
        FountainView,
        Option<Seq<u8>>,
    ) {
        if self.header is Some && self.header->0.file.checksum == header.file.checksum {
            self.finished()
        } else {
            let (after, file) = FountainView::begun(header).replayed(self.pending);
            if file is Some {
                (after, file)
            } else {
                after.finished()
            }
        }
    }

    /// The receiver with a packet put aside, as long as there is room.
    pub open spec fn waiting(self, packet: Seq<u8>) -> FountainView {
        if self.header is None && self.pending.len() < BINARY_MAX_PENDING_PACKETS {
            FountainView { pending: self.pending.push(packet), ..self }
        } else {
            self
        }
    }

    /// The receiver after a packet, and the file if it was handed out now.
    pub open spec fn processed(self, packet: Seq<u8>) -> (FountainView, Option<Seq<u8>>) {
        if is_fountain_header(packet) {
            match parsed_fountain_header(packet) {
                Some(header) => self.installed(header),
                None => (self, None),
            }
        } else if packet.len() >= 4 && packet.take(3) == fountain_magic() && !is_fountain_data(
            packet,
        ) && !is_fountain_repair(packet) {
            (self, None)
        } else if self.header is None {
            (self.waiting(packet), None)
        } else {
            self.accepted(packet)
        }
    }
}

/// Different symbols have different keys.
pub proof fn law_symbol_keys_differ(
    kind_a: u8,
    position_a: nat,
    mask_a: u32,
    kind_b: u8,
    position_b: nat,
    mask_b: u32,
)
    requires
        position_a < 0x1_0000,
        position_b < 0x1_0000,
        symbol_key(kind_a, position_a, mask_a) == symbol_key(kind_b, position_b, mask_b),
    ensures
        kind_a == kind_b,
        position_a == position_b,
        mask_a == mask_b,
{
}

// ---------------------------------------------------------------------------
// The executable receiver

/// The state of a receiver.
#[derive(Debug)]
pub struct FountainReceiverState {
    pub header: Option<FountainHeader>,
    pub windows: HashMap<usize, FountainWindow>,
    pub pending: Vec<Vec<u8>>,
    pub seen: HashMap<u64, bool>,
    pub received_symbols: usize,
    pub received_data: HashMap<usize, bool>,
    pub recovered_packets: usize,
    pub complete: bool,
}

impl View for FountainReceiverState {
    type V = FountainView;

    open spec fn view(&self) -> FountainView {
        FountainView {
            header: match self.header {
                Some(header) => Some(header@),
                None => None,
            },
            windows: window_views(self.windows@),
            pending: packet_views(self.pending@),
            seen: self.seen@.dom(),
            received: self.received_data@.dom(),
            recovered: self.recovered_packets as nat,
            complete: self.complete,
        }
    }
}

impl FountainReceiverState {
    /// Whether the counter and the windows are in order.
    pub open spec fn linked(&self) -> bool {
        &&& self.received_symbols == self.seen@.dom().len()
        &&& forall|w: usize| #[trigger] self.windows@.contains_key(w) ==> self.windows@[w].wf()
    }

    pub open spec fn wf(&self) -> bool {
        self.linked() && self@.wf()
    }
}

impl Default for FountainReceiverState {
    /// A receiver that knows nothing.
    fn default() -> (state: FountainReceiverState)
        ensures
            state.wf(),
            state@ == FountainView::empty(),
    {
        broadcast use vstd::std_specs::hash::group_hash_axioms;

        let state = FountainReceiverState {
            header: None,
            windows: HashMap::new(),
            pending: Vec::new(),
            seen: HashMap::new(),
            received_symbols: 0,
            received_data: HashMap::new(),
            recovered_packets: 0,
            complete: false,
        };
        assert(state@ =~= FountainView::empty());
        state
    }
}

/// Whether a chunk is known.
pub fn chunk_known(state: &FountainReceiverState, index: usize) -> (known: bool)
    requires
        state.wf(),
    ensures
        known == (chunk_at(state@.windows, index as nat) is Some),
{
    broadcast use vstd::std_specs::hash::group_hash_axioms;

    match state.windows.get(&(index / FOUNTAIN_WINDOW_SIZE)) {
        Some(window) => window.is_known(index % FOUNTAIN_WINDOW_SIZE),
        None => false,
    }
}

/// Puts the file together, if every chunk is known, and hands it out if it is
/// the one announced.
#[verifier::rlimit(40)]
pub fn fountain_try_assemble(state: &mut FountainReceiverState) -> (file: Option<Vec<u8>>)
    requires
        old(state).wf(),
    ensures
        final(state).wf(),
        (final(state)@, file_view(file)) == old(state)@.finished(),
{
    broadcast use vstd::std_specs::hash::group_hash_axioms;

    let ghost before = state@;
    let file: Option<Vec<u8>> = match &state.header {
        None => None,
        Some(header) => {
            assert(before.header == Some(header@));
            if state.complete {
                return None;
            }
            proof {
                lemma_chunk_count(header.compressed_size as nat, header.chunk_size as nat);
            }
            let mut encoded: Vec<u8> = Vec::new();
            let mut index: usize = 0;
            assert(joined(known_chunks(before.windows, 0)) =~= Seq::<u8>::empty());
            assert(0 * header.chunk_size == 0);
            while index < header.data_packets
                invariant
                    index <= header.data_packets,
                    state.wf(),
                    *state == *old(state),
                    before == state@,
                    before.header == Some(header@),
                    !before.complete,
                    all_known(before.windows, index as nat),
                    encoded@ == joined(known_chunks(before.windows, index as nat)),
                    encoded@.len() == index * header.chunk_size,
                decreases header.data_packets - index,
            {
                assert(index / 32 * 32 + index % 32 == index);
                match state.windows.get(&(index / FOUNTAIN_WINDOW_SIZE)) {
                    None => {
                        assert(chunk_at(before.windows, index as nat) is None);
                        return None;
                    },
                    Some(window) => {
                        let local: usize = index % FOUNTAIN_WINDOW_SIZE;
                        assert(before.windows[(index / FOUNTAIN_WINDOW_SIZE)] == window@);
                        assert(window@.chunks.len() == window.chunks@.len());
                        if local >= window.chunks.len() {
                            assert(chunk_at(before.windows, index as nat) is None);
                            return None;
                        }
                        match &window.chunks[local] {
                            None => {
                                assert(chunk_at(before.windows, index as nat) is None);
                                return None;
                            },
                            Some(chunk) => {
                                assert(chunk_at(before.windows, index as nat) == Some(chunk@));
                                assert(window@.chunks[local as int] is Some);
                                encoded.extend_from_slice(chunk.as_slice());
                                proof {
                                    assert(known_chunks(
                                        before.windows,
                                        (index + 1) as nat,
                                    ).drop_last() =~= known_chunks(before.windows, index as nat));
                                    assert((index + 1) * header.chunk_size == index
                                        * header.chunk_size + header.chunk_size)
                                        by (nonlinear_arith);
                                }
                            },
                        }
                    },
                }
                index = index + 1;
            }
            encoded.truncate(header.compressed_size);
            assert(encoded@ == joined(known_chunks(before.windows, before.total())).take(
                header.compressed_size as int,
            ));
            restore(
                encoded,
                header.codec,
                header.filename.as_str(),
                header.file_size,
                header.checksum,
                &header.digest,
            )
        },
    };
    if file.is_some() {
        state.complete = true;
        assert(state@ =~= (FountainView { complete: true, ..before }));
    }
    file
}

/// What a receiver knows of a chunk, in terms of its window.
pub proof fn lemma_chunk_at(state: FountainView, header: FountainHeaderView, index: nat)
    requires
        state.wf(),
        state.header == Some(header),
        index < header.file.data_packets,
    ensures
        ({
            let w = (index / FOUNTAIN_WINDOW_SIZE as nat) as usize;
            let l = index % FOUNTAIN_WINDOW_SIZE as nat;
            &&& w < window_count(header.file.data_packets)
            &&& l < window_width(header.file.data_packets, w as nat)
            &&& state.window_at(w).chunks.len() == window_width(
                header.file.data_packets,
                w as nat,
            )
            &&& chunk_at(state.windows, index) == state.window_at(w).chunks[l as int]
        }),
{
}

/// An equation keeps a window fit for the receiver, and no chunk is lost.
pub proof fn lemma_advanced(
    state: FountainView,
    header: FountainHeaderView,
    window: usize,
    equation: EquationView,
    arrived: Option<nat>,
)
    requires
        state.wf(),
        state.header == Some(header),
        window * FOUNTAIN_WINDOW_SIZE < header.file.data_packets,
        equation.payload.len() == header.file.chunk_size,
        arrived matches Some(local) ==> local < window_width(
            header.file.data_packets,
            window as nat,
        ),
    ensures
        ({
            let before = state.window_at(window);
            let after = state.advanced(window, equation, arrived);
            &&& after.wf()
            &&& after.chunks.len() == before.chunks.len() == window_width(
                header.file.data_packets,
                window as nat,
            )
            &&& sized(after, header.file.chunk_size)
            &&& forall|l: int|
                0 <= l < before.chunks.len() && before.chunks[l] is Some
                    ==> #[trigger] after.chunks[l] == before.chunks[l]
            &&& arrived matches Some(local) ==> after.chunks[local as int] is Some
        }),
{
    let length = header.file.chunk_size;
    let before = state.window_at(window);
    assert(before.wf() && sized(before, length));
    let grown = before.added(equation);
    lemma_added_wf(before, equation);
    lemma_added_sized(before, equation, length);
    let told = match arrived {
        Some(local) => grown.learned(local, equation.payload),
        None => grown,
    };
    assert(sized(told, length)) by {
        assert forall|i: int| 0 <= i < told.chunks.len() && (#[trigger] told.chunks[i])
            is Some implies told.chunks[i]->0.len() == length by {
            if grown.chunks[i] is Some {
                assert(told.chunks[i] == grown.chunks[i]);
            }
        }
        assert forall|p: int| 0 <= p < told.basis.len() && (#[trigger] told.basis[p])
            is Some implies told.basis[p]->0.payload.len() == length by {
            assert(told.basis[p] == grown.basis[p]);
        }
    }
    lemma_solved_sized(told, length);
    lemma_solved_keeps(told);
    let after = told.solved();
    assert forall|l: int| 0 <= l < before.chunks.len() && before.chunks[l]
        is Some implies #[trigger] after.chunks[l] == before.chunks[l] by {
        assert(told.chunks[l] == before.chunks[l]);
    }
}

/// A packet that is taken in keeps a receiver well-formed and loses no chunk, and
/// a chunk that came is known.
pub proof fn lemma_stored(state: FountainView, header: FountainHeaderView, packet: Seq<u8>)
    requires
        state.wf(),
        state.header == Some(header),
    ensures
        state.stored(packet) matches Some(next) ==> {
            &&& next.wf()
            &&& next.header == state.header
            &&& forall|i: nat|
                i < header.file.data_packets && (#[trigger] chunk_at(state.windows, i)) is Some
                    ==> chunk_at(next.windows, i) == chunk_at(state.windows, i)
            &&& is_fountain_data(packet) ==> chunk_at(next.windows, u32_at(packet, 12)) is Some
        },
{
    if let Some(next) = state.stored(packet) {
        let total = header.file.data_packets;
        lemma_chunk_count(header.file.compressed_size, header.file.chunk_size);
        let data = is_fountain_data(packet);
        let index = u32_at(packet, 12);
        let number = u16_at(packet, 12);
        let (window, equation, arrived) = if data {
            let local = index % FOUNTAIN_WINDOW_SIZE as nat;
            (
                (index / FOUNTAIN_WINDOW_SIZE as nat) as usize,
                EquationView {
                    mask: 1u32 << (local as u32),
                    payload: padded(packet.skip(16), header.file.chunk_size),
                },
                Some(local),
            )
        } else {
            (
                number as usize,
                EquationView { mask: u32_at(packet, 14) as u32, payload: packet.skip(18) },
                None::<nat>,
            )
        };
        let view = state.advanced(window, equation, arrived);
        assert(next.windows == state.windows.insert(window, view));
        lemma_advanced(state, header, window, equation, arrived);
        if !data {
            let found = found_in(view, window, window_width(total, number));
            assert forall|i: usize| #[trigger] found.contains(i) implies i < total by {
                assert(i / 32 * 32 + i % 32 == i);
            }
            lemma_bounded_finite(found, total);
            vstd::set_lib::lemma_len_subset(state.received, next.received);
        }
        assert forall|i: nat| i < total && (#[trigger] chunk_at(state.windows, i))
            is Some implies chunk_at(next.windows, i) == chunk_at(state.windows, i) by {
            lemma_chunk_at(state, header, i);
        }
        assert forall|i: usize| i < total && next.seen.contains(
            #[trigger] data_key(i),
        ) implies chunk_at(next.windows, i as nat) is Some by {
            if state.seen.contains(data_key(i)) {
                assert(chunk_at(state.windows, i as nat) is Some);
            }
        }
        if state.complete {
            assert forall|i: nat| i < total implies (#[trigger] chunk_at(next.windows, i)) is Some by {
                assert(chunk_at(state.windows, i) is Some);
            }
        }
    }
}

/// A place in a window, if there is one.
spec fn place(local: Option<usize>) -> Option<nat> {
    match local {
        Some(at) => Some(at as nat),
        None => None,
    }
}

/// Adds an equation to a window, and the chunk that arrived with it, and solves
/// what can be solved.
fn advance_window(
    state: &mut FountainReceiverState,
    data_packets: usize,
    window: usize,
    equation: FountainEquation,
    arrived: Option<usize>,
)
    requires
        old(state).wf(),
        old(state)@.header is Some,
        old(state)@.total() == data_packets,
        window * FOUNTAIN_WINDOW_SIZE < data_packets,
        equation.payload@.len() == old(state)@.header->0.file.chunk_size,
        arrived matches Some(at) ==> at < window_width(data_packets as nat, window as nat),
    ensures
        final(state).linked(),
        final(state)@ == (FountainView {
            windows: old(state)@.windows.insert(
                window,
                old(state)@.advanced(window, equation@, place(arrived)),
            ),
            ..old(state)@
        }),
{
    broadcast use vstd::std_specs::hash::group_hash_axioms;

    let ghost before = state@;
    proof {
        lemma_advanced(before, before.header->0, window, equation@, place(arrived));
    }
    let taken: Option<FountainWindow> = state.windows.remove(&window);
    let mut current: FountainWindow = match taken {
        Some(current) => {
            assert(before.windows.contains_key(window));
            current
        },
        None => {
            assert(!before.windows.contains_key(window));
            FountainWindow::new(width_of_window(data_packets, window))
        },
    };
    assert(current@ == before.window_at(window));
    match arrived {
        Some(at) => {
            let chunk: Vec<u8> = vstd::slice::slice_to_vec(equation.payload.as_slice());
            current.add_equation(equation);
            current.learn(at, chunk);
        },
        None => {
            current.add_equation(equation);
        },
    }
    current.solve();
    let ghost next = current@;
    state.windows.insert(window, current);
    assert(state@.windows =~= before.windows.insert(window, next));
    assert(state@ =~= (FountainView {
        windows: before.windows.insert(window, next),
        ..before
    }));
}

/// Takes in a data packet.
pub fn accept_fountain_data(state: &mut FountainReceiverState, packet: &[u8]) -> (file: Option<
    Vec<u8>,
>)
    requires
        old(state).wf(),
        old(state)@.header is Some,
        is_fountain_data(packet@),
    ensures
        final(state).wf(),
        (final(state)@, file_view(file)) == old(state)@.accepted(packet@),
        final(state)@.header == old(state)@.header,
{
    broadcast use vstd::std_specs::hash::group_hash_axioms;

    let ghost before = state@;
    let sum: u64 = read_u64(packet, 4)?;
    let index: usize = read_u32(packet, 12)?;
    let payload: Vec<u8> = copy_range(packet, FOUNTAIN_DATA_FIXED_BYTES, packet.len());
    assert(payload@ =~= packet@.skip(16));
    let (data_packets, filled): (usize, Vec<u8>) = match &state.header {
        None => {
            return None;
        },
        Some(header) => {
            assert(before.header == Some(header@));
            if sum != header.checksum || index >= header.data_packets {
                return None;
            }
            assert(index * header.chunk_size <= 10_000 * 1_800) by (nonlinear_arith)
                requires
                    index <= 10_000,
                    header.chunk_size <= 1_800,
            ;
            if payload.len() != piece_len(header.compressed_size, header.chunk_size, index) {
                return None;
            }
            (header.data_packets, pad(payload.as_slice(), header.chunk_size))
        },
    };
    let window: usize = index / FOUNTAIN_WINDOW_SIZE;
    let local: usize = index % FOUNTAIN_WINDOW_SIZE;
    let key: u64 = FOUNTAIN_DATA_TYPE as u64 * 0x1_0000_0000_0000 + index as u64 * 0x1_0000_0000;
    assert(key == data_key(index));
    if state.seen.contains_key(&key) {
        return None;
    }
    let equation = FountainEquation { mask: 1u32 << (local as u32), payload: filled };
    assert(local < window_width(data_packets as nat, window as nat));
    advance_window(state, data_packets, window, equation, Some(local));
    state.seen.insert(key, true);
    state.received_symbols = state.seen.len();
    state.received_data.insert(index, true);
    assert(state@.seen =~= before.seen.insert(key));
    assert(state@.received =~= before.received.insert(index));
    assert(state@ =~= before.stored_data(packet@)->0);
    proof {
        lemma_stored(before, before.header->0, packet@);
    }
    fountain_try_assemble(state)
}

/// Takes in a repair packet.
#[verifier::rlimit(40)]
pub fn accept_fountain_repair(state: &mut FountainReceiverState, packet: &[u8]) -> (file: Option<
    Vec<u8>,
>)
    requires
        old(state).wf(),
        old(state)@.header is Some,
        is_fountain_repair(packet@),
    ensures
        final(state).wf(),
        (final(state)@, file_view(file)) == old(state)@.accepted(packet@),
        final(state)@.header == old(state)@.header,
{
    broadcast use vstd::std_specs::hash::group_hash_axioms;

    let ghost before = state@;
    let sum: u64 = read_u64(packet, 4)?;
    let window: usize = read_u16(packet, 12)?;
    let mask: u32 = read_u32(packet, 14)? as u32;
    let payload: Vec<u8> = copy_range(packet, FOUNTAIN_REPAIR_FIXED_BYTES, packet.len());
    assert(payload@ =~= packet@.skip(18));
    let data_packets: usize = match &state.header {
        None => {
            return None;
        },
        Some(header) => {
            assert(before.header == Some(header@));
            if sum != header.checksum || payload.len() != header.chunk_size {
                return None;
            }
            header.data_packets
        },
    };
    if window * FOUNTAIN_WINDOW_SIZE >= data_packets {
        return None;
    }
    let width: usize = width_of_window(data_packets, window);
    if mask == 0 || (width < 32 && mask >> (width as u32) != 0) {
        return None;
    }
    let key: u64 = FOUNTAIN_REPAIR_TYPE as u64 * 0x1_0000_0000_0000 + window as u64 * 0x1_0000_0000
        + mask as u64;
    assert(key == symbol_key(FOUNTAIN_REPAIR_TYPE, window as nat, mask));
    if state.seen.contains_key(&key) {
        return None;
    }
    let equation = FountainEquation { mask, payload };
    let ghost view = equation@;
    proof {
        lemma_advanced(before, before.header->0, window, view, None);
    }
    advance_window(state, data_packets, window, equation, None);
    let ghost next = before.advanced(window, view, None);
    let ghost windows = state@.windows;
    state.seen.insert(key, true);
    state.received_symbols = state.seen.len();
    assert(state@.seen =~= before.seen.insert(key));
    let mut local: usize = 0;
    assert(before.received.union(found_in(next, window, 0)) =~= before.received);
    while local < width
        invariant
            local <= width <= FOUNTAIN_WINDOW_SIZE,
            width == window_width(before.total(), window as nat),
            before.wf(),
            before.header is Some,
            before.total() == data_packets <= BINARY_MAX_PENDING_PACKETS,
            window * FOUNTAIN_WINDOW_SIZE < data_packets,
            window * FOUNTAIN_WINDOW_SIZE + width <= data_packets,
            next.chunks.len() == width,
            windows == before.windows.insert(window, next),
            state.linked(),
            state@ == (FountainView {
                windows,
                seen: before.seen.insert(key),
                received: state@.received,
                recovered: state@.recovered,
                ..before
            }),
            state@.received == before.received.union(found_in(next, window, local as nat)),
            state@.recovered - before.recovered == state@.received.len() - before.received.len(),
        decreases width - local,
    {
        let index: usize = window * FOUNTAIN_WINDOW_SIZE + local;
        let ghost held = state@.received;
        assert(held.finite());
        proof {
            assert forall|i: usize| #[trigger] held.contains(i) implies i < data_packets by {
                if !before.received.contains(i) {
                    assert(found_in(next, window, local as nat).contains(i));
                    assert(i / 32 * 32 + i % 32 == i);
                }
            }
            lemma_count(held, data_packets as nat);
        }
        let known: bool = match state.windows.get(&window) {
            Some(current) => {
                assert(windows[window] == current@);
                current.is_known(local)
            },
            None => {
                assert(windows.contains_key(window));
                false
            },
        };
        assert(known == (next.chunks[local as int] is Some));
        assert(index / 32 == window && index % 32 == local);
        if known {
            if state.received_data.insert(index, true).is_none() {
                state.recovered_packets = state.recovered_packets + 1;
            }
            assert(state@.received =~= held.insert(index));
        }
        local = local + 1;
        proof {
            let wanted = before.received.union(found_in(next, window, local as nat));
            assert forall|i: usize| wanted.contains(i) == state@.received.contains(i) by {
                if i / 32 == window && i % 32 == local - 1 {
                    assert(i / 32 * 32 + i % 32 == i);
                }
            }
            assert(state@.received =~= wanted);
        }
    }
    proof {
        assert forall|i: usize| #[trigger] state@.received.contains(i) implies i < data_packets by {
            if !before.received.contains(i) {
                assert(found_in(next, window, width as nat).contains(i));
                assert(i / 32 * 32 + i % 32 == i);
            }
        }
        assert(!is_fountain_data(packet@));
        assert(state@ =~= before.stored_repair(packet@)->0);
        lemma_stored(before, before.header->0, packet@);
    }
    fountain_try_assemble(state)
}

/// Takes in a data or repair packet, and ignores any other.
pub fn accept_fountain_symbol(state: &mut FountainReceiverState, packet: &[u8]) -> (file: Option<
    Vec<u8>,
>)
    requires
        old(state).wf(),
        old(state)@.header is Some,
    ensures
        final(state).wf(),
        (final(state)@, file_view(file)) == old(state)@.accepted(packet@),
        final(state)@.header == old(state)@.header,
{
    if packet.len() < FOUNTAIN_DATA_FIXED_BYTES || !has_fountain_magic(packet) {
        return None;
    }
    if packet[3] == FOUNTAIN_DATA_TYPE {
        return accept_fountain_data(state, packet);
    }
    if packet[3] == FOUNTAIN_REPAIR_TYPE && packet.len() >= FOUNTAIN_REPAIR_FIXED_BYTES {
        return accept_fountain_repair(state, packet);
    }
    None
}

/// Takes in a header.
pub fn install_fountain_header(
    state: &mut FountainReceiverState,
    header: FountainHeader,
) -> (file: Option<Vec<u8>>)
    requires
        old(state).wf(),
        header@.acceptable(),
    ensures
        final(state).wf(),
        (final(state)@, file_view(file)) == old(state)@.installed(header@),
{
    broadcast use vstd::std_specs::hash::group_hash_axioms;

    let ghost before = state@;
    let is_new: bool = match &state.header {
        None => true,
        Some(current) => current.checksum != header.checksum,
    };
    if !is_new {
        return fountain_try_assemble(state);
    }
    let mut pending: Vec<Vec<u8>> = Vec::new();
    std::mem::swap(&mut pending, &mut state.pending);
    assert(packet_views(pending@) == before.pending);
    let ghost announced = header@;
    *state = FountainReceiverState {
        header: Some(header),
        windows: HashMap::new(),
        pending: Vec::new(),
        seen: HashMap::new(),
        received_symbols: 0,
        received_data: HashMap::new(),
        recovered_packets: 0,
        complete: false,
    };
    let ghost fresh = FountainView::begun(announced);
    assert(state@ =~= fresh);
    let mut assembled: Option<Vec<u8>> = None;
    let mut next: usize = 0;
    let ghost list = packet_views(pending@);
    assert(list.take(0) =~= Seq::<Seq<u8>>::empty());
    while next < pending.len()
        invariant
            next <= pending@.len(),
            list == packet_views(pending@),
            state.wf(),
            state@.header is Some,
            (state@, file_view(assembled)) == fresh.replayed(list.take(next as int)),
        decreases pending@.len() - next,
    {
        let file: Option<Vec<u8>> = accept_fountain_symbol(state, pending[next].as_slice());
        assert(list.take(next + 1).drop_last() =~= list.take(next as int));
        if file.is_some() {
            assembled = file;
        }
        next = next + 1;
    }
    assert(list.take(pending@.len() as int) =~= list);
    if assembled.is_some() {
        assembled
    } else {
        fountain_try_assemble(state)
    }
}

/// Takes in a packet, and hands the file out once it can.
pub fn process_fountain_packet(state: &mut FountainReceiverState, packet: Vec<u8>) -> (file: Option<
    Vec<u8>,
>)
    requires
        old(state).wf(),
    ensures
        final(state).wf(),
        (final(state)@, file_view(file)) == old(state)@.processed(packet@),
{
    let ghost before = state@;
    if packet.len() >= 4 && has_fountain_magic(packet.as_slice()) {
        if packet[3] == FOUNTAIN_HEADER_TYPE {
            return match parse_fountain_header(packet.as_slice()) {
                Some(header) => install_fountain_header(state, header),
                None => None,
            };
        }
        let is_data: bool = packet[3] == FOUNTAIN_DATA_TYPE && packet.len()
            >= FOUNTAIN_DATA_FIXED_BYTES;
        let is_repair: bool = packet[3] == FOUNTAIN_REPAIR_TYPE && packet.len()
            >= FOUNTAIN_REPAIR_FIXED_BYTES;
        if !is_data && !is_repair {
            return None;
        }
    }
    if state.header.is_none() {
        if state.pending.len() < BINARY_MAX_PENDING_PACKETS {
            let ghost bytes = packet@;
            state.pending.push(packet);
            assert(state@.pending =~= before.pending.push(bytes));
            assert(state@ =~= before.waiting(bytes));
        }
        return None;
    }
    accept_fountain_symbol(state, packet.as_slice())
}

/// Forgets everything.
pub fn reset_fountain_receiver(state: &mut FountainReceiverState)
    ensures
        final(state).wf(),
        final(state)@ == FountainView::empty(),
{
    *state = FountainReceiverState::default();
}

// ---------------------------------------------------------------------------
// What a receiver shows

/// How many chunks a transfer has; none before the header.
fn fountain_total(state: &FountainReceiverState) -> (total: usize)
    ensures
        total == state@.total(),
{
    match &state.header {
        Some(header) => header.data_packets,
        None => 0,
    }
}

/// Which chunks are known.
fn fountain_presence(state: &FountainReceiverState) -> (list: Vec<bool>)
    requires
        state.wf(),
    ensures
        list@ == state@.present(),
{
    let total: usize = fountain_total(state);
    let mut list: Vec<bool> = Vec::new();
    let mut i: usize = 0;
    while i < total
        invariant
            i <= total == state@.total(),
            state.wf(),
            list@ == state@.present().take(i as int),
        decreases total - i,
    {
        list.push(chunk_known(state, i));
        i = i + 1;
        assert(list@ =~= state@.present().take(i as int));
    }
    assert(state@.present().take(total as int) =~= state@.present());
    list
}

/// How many chunks are known.
pub fn fountain_receiver_progress_internal(state: &FountainReceiverState) -> (count: usize)
    requires
        state.wf(),
    ensures
        count == count_set(state@.present()),
        count <= state@.total(),
{
    let list: Vec<bool> = fountain_presence(state);
    let mut count: usize = 0;
    let mut i: usize = 0;
    while i < list.len()
        invariant
            count <= i <= list@.len(),
            count == count_set(list@.take(i as int)),
        decreases list@.len() - i,
    {
        if list[i] {
            count = count + 1;
        }
        assert(list@.take(i + 1).drop_last() =~= list@.take(i as int));
        i = i + 1;
    }
    assert(list@.take(list@.len() as int) =~= list@);
    count
}

/// How many chunks are known, and how many there are in all.
pub fn fountain_receiver_progress(state: &FountainReceiverState) -> (progress: Vec<u32>)
    requires
        state.wf(),
    ensures
        progress@.len() == 2,
        progress@[0] == count_set(state@.present()),
        progress@[1] == state@.total(),
{
    let mut progress: Vec<u32> = Vec::new();
    progress.push(fountain_receiver_progress_internal(state) as u32);
    progress.push(fountain_total(state) as u32);
    progress
}

/// A one for each chunk that is known, a zero for each that is missing.
pub fn fountain_receiver_packet_map(state: &FountainReceiverState) -> (map: Vec<u8>)
    requires
        state.wf(),
    ensures
        map@ == flags(state@.present()),
{
    flag_bytes(&fountain_presence(state))
}

/// The ranges of missing chunks.
pub fn fountain_receiver_missing_ranges(state: &FountainReceiverState) -> (text: String)
    requires
        state.wf(),
    ensures
        text@ == missing_text(state@.present()),
{
    missing_list(&fountain_presence(state))
}

/// What a receiver reports of a transfer.
#[derive(Debug)]
pub struct FountainReceiverInfo {
    pub strategy: String,
    pub filename: String,
    pub total_packets: usize,
    pub received_packets: usize,
    pub missing_packets: usize,
    pub file_size: usize,
    pub compressed_size: usize,
    pub checksum: Option<String>,
    pub sha256: Option<String>,
    pub codec: String,
    pub overhead_percent: usize,
    pub repair_packets: usize,
    pub received_symbols: usize,
    pub recovered_packets: usize,
    pub complete: bool,
}

impl FountainReceiverInfo {
    /// Whether the report is true of a receiver.
    pub open spec fn reports(self, header: FountainHeaderView, state: FountainView) -> bool {
        &&& self.strategy@ == "fountain-lt"@
        &&& self.filename@ == header.file.filename
        &&& self.total_packets == header.file.data_packets
        &&& self.received_packets == count_set(state.present())
        &&& self.missing_packets == header.file.data_packets - count_set(state.present())
        &&& self.file_size == header.file.file_size
        &&& self.compressed_size == header.file.compressed_size
        &&& self.checksum is Some && self.checksum->0@ == hex(header.file.checksum as nat, 16)
        &&& self.sha256 is Some && self.sha256->0@ == hex_bytes(header.file.digest)
        &&& self.codec@ == codec_text(header.file.codec)
        &&& self.overhead_percent == header.overhead_percent
        &&& self.repair_packets == header.repair_packets
        &&& self.received_symbols == state.seen.len()
        &&& self.recovered_packets == state.recovered
        &&& self.complete == state.complete
    }
}

/// The report of a transfer; `None` before the header.
pub fn fountain_receiver_info(state: &FountainReceiverState) -> (info: Option<
    FountainReceiverInfo,
>)
    requires
        state.wf(),
    ensures
        info is Some <==> state@.header is Some,
        info matches Some(report) ==> report.reports(state@.header->0, state@),
{
    let known: usize = fountain_receiver_progress_internal(state);
    match &state.header {
        None => None,
        Some(header) => Some(
            FountainReceiverInfo {
                strategy: "fountain-lt".to_owned(),
                filename: header.filename.clone(),
                total_packets: header.data_packets,
                received_packets: known,
                missing_packets: header.data_packets - known,
                file_size: header.file_size,
                compressed_size: header.compressed_size,
                checksum: Some(checksum_text(header.checksum)),
                sha256: Some(bytes_hex(header.digest.as_slice())),
                codec: codec_name(header.codec),
                overhead_percent: header.overhead_percent,
                repair_packets: header.repair_packets,
                received_symbols: state.received_symbols,
                recovered_packets: state.recovered_packets,
                complete: state.complete,
            },
        ),
    }
}

} // verus!
