//! The receiver of the text transport.

use crate::chars::{begins_with, checksum_text, hex};
use crate::checksum::{checksum, fnv1a};
use crate::codec::{base64_bytes, base64_decode, decompress_file, inflated};
use crate::ranges::{missing_list, missing_text, request_packet, request_text};
use crate::store::{
    all_present, file_view, flag_bytes, flags, in_order, lemma_count, lemma_in_order, presence,
    present, text_views,
};
use crate::text::{
    parse_data, parse_header, parsed_text_data, parsed_text_header, HeaderMetadata, TextData,
    TextDataView, TextHeaderView, MAX_TOTAL_PACKETS,
};
use crate::transfer::{joined, MAX_FILE_BYTES};
use std::collections::HashMap;
use vstd::prelude::*;
use vstd::utf8::*;

verus! {

/// What a receiver knows: the header (nothing is announced while there is no
/// checksum), the parts by their index, the parts that wait for a header and
/// the transfer that they belong to, and whether the file was handed out.
#[verifier::ext_equal]
pub struct TextView {
    pub checksum: Option<u64>,
    pub total_packets: nat,
    pub file_size: nat,
    pub filename: Seq<char>,
    pub chunks: Map<usize, Seq<char>>,
    pub pending: Map<usize, Seq<char>>,
    pub pending_checksum: Option<u64>,
    pub complete: bool,
}

/// Whether a file is the one that a text header announced: it has the length and
/// the checksum.
pub open spec fn text_genuine(
    file: Seq<u8>,
    filename: Seq<char>,
    file_size: nat,
    announced: u64,
) -> bool {
    file.len() == file_size && fnv1a(encode_utf8(filename) + file) == announced
}

/// The file that the joined parts give, if it is the one announced.
pub open spec fn text_restored(
    encoded: Seq<char>,
    filename: Seq<char>,
    file_size: nat,
    announced: u64,
) -> Option<Seq<u8>> {
    match base64_bytes(encoded) {
        None => None,
        Some(compressed) => match inflated(compressed) {
            None => None,
            Some(file) => if text_genuine(file, filename, file_size, announced) {
                Some(file)
            } else {
                None
            },
        },
    }
}

impl TextView {
    /// A receiver that knows nothing.
    pub open spec fn empty() -> TextView {
        TextView {
            checksum: None,
            total_packets: 0,
            file_size: 0,
            filename: Seq::empty(),
            chunks: Map::empty(),
            pending: Map::empty(),
            pending_checksum: None,
            complete: false,
        }
    }

    /// Which parts are there.
    pub open spec fn present(self) -> Seq<bool> {
        present(self.chunks.dom(), self.total_packets)
    }

    pub open spec fn wf(self) -> bool {
        &&& self.chunks.dom().finite()
        &&& self.total_packets <= MAX_TOTAL_PACKETS
        &&& self.file_size <= MAX_FILE_BYTES
        &&& forall|index: usize| #[trigger]
            self.chunks.contains_key(index) ==> index < self.total_packets
        &&& self.checksum is Some ==> {
            &&& self.total_packets >= 1
            &&& self.pending == Map::<usize, Seq<char>>::empty()
            &&& self.pending_checksum is None
        }
        &&& self.complete ==> all_present(self.chunks.dom(), self.total_packets)
        &&& self.checksum is None ==> self.total_packets == 0 && !self.complete
    }

    /// The receiver after an attempt to put the file together, and the file if
    /// it was handed out now.
    pub open spec fn finished(self) -> (TextView, Option<Seq<u8>>) {
        if !self.complete && self.checksum is Some && all_present(
            self.chunks.dom(),
            self.total_packets,
        ) {
            match text_restored(
                joined(in_order(self.chunks, self.total_packets)),
                self.filename,
                self.file_size,
                self.checksum->0,
            ) {
                Some(file) => (TextView { complete: true, ..self }, Some(file)),
                None => (self, None),
            }
        } else {
            (self, None)
        }
    }

    /// Whether an attempt to finish brings nothing new.
    pub open spec fn at_rest(self) -> bool {
        self.finished() == (self, None::<Seq<u8>>)
    }

    /// Whether a header announces another transfer than the present one.
    pub open spec fn is_new(self, header: TextHeaderView) -> bool {
        self.checksum != Some(header.checksum) || self.total_packets != header.total_packets
            || self.file_size != header.file_size
    }

    /// A receiver that has just learned of a transfer: of the parts that waited,
    /// those of this transfer stay.
    pub open spec fn begun(self, header: TextHeaderView) -> TextView {
        TextView {
            checksum: Some(header.checksum),
            total_packets: header.total_packets,
            file_size: header.file_size,
            filename: header.filename,
            chunks: if self.pending_checksum == Some(header.checksum) {
                Map::new(
                    |i: usize| self.pending.contains_key(i) && i < header.total_packets,
                    |i: usize| self.pending[i],
                )
            } else {
                Map::empty()
            },
            ..TextView::empty()
        }
    }

    /// The receiver after a header.
    pub open spec fn installed(self, header: TextHeaderView) -> (TextView, Option<Seq<u8>>) {
        if self.is_new(header) {
            self.begun(header).finished()
        } else {
            self.finished()
        }
    }

    /// The receiver with a part put aside. Parts of one transfer at a time wait,
    /// and the first that came under an index stays.
    pub open spec fn waiting(self, data: TextDataView) -> TextView {
        let pending = if self.pending_checksum == Some(data.checksum) {
            self.pending
        } else {
            Map::empty()
        };
        TextView {
            pending: if pending.contains_key(data.index) {
                pending
            } else {
                pending.insert(data.index, data.chunk)
            },
            pending_checksum: Some(data.checksum),
            ..self
        }
    }

    /// The receiver with a part of the present transfer.
    pub open spec fn stored(self, data: TextDataView) -> TextView {
        if data.index < self.total_packets {
            TextView { chunks: self.chunks.insert(data.index, data.chunk), ..self }
        } else {
            self
        }
    }

    /// The receiver after a packet, and the file if it was handed out now.
    pub open spec fn processed(self, packet: Seq<char>) -> (TextView, Option<Seq<u8>>) {
        if "METADATA|"@.is_prefix_of(packet) {
            match parsed_text_header(packet) {
                Some(header) => self.installed(header),
                None => (self, None),
            }
        } else {
            match parsed_text_data(packet) {
                None => (self, None),
                Some(data) => if self.checksum == Some(data.checksum) {
                    self.stored(data).finished()
                } else if self.checksum is None {
                    (self.waiting(data), None)
                } else {
                    (self, None)
                },
            }
        }
    }
}

// ---------------------------------------------------------------------------
// The executable receiver

/// The state of a receiver.
#[derive(Debug)]
pub struct ReceiverState {
    pub checksum: Option<u64>,
    pub total_packets: usize,
    pub file_size: usize,
    pub filename: String,
    pub chunks: HashMap<usize, String>,
    pub pending: HashMap<usize, String>,
    pub pending_checksum: Option<u64>,
    pub received_packets: usize,
    pub complete: bool,
}

impl View for ReceiverState {
    type V = TextView;

    open spec fn view(&self) -> TextView {
        TextView {
            checksum: self.checksum,
            total_packets: self.total_packets as nat,
            file_size: self.file_size as nat,
            filename: self.filename@,
            chunks: text_views(self.chunks@),
            pending: text_views(self.pending@),
            pending_checksum: self.pending_checksum,
            complete: self.complete,
        }
    }
}

impl ReceiverState {
    pub open spec fn wf(&self) -> bool {
        &&& self.received_packets == self.chunks@.dom().len()
        &&& self@.wf()
    }
}

impl Default for ReceiverState {
    /// A receiver that knows nothing.
    fn default() -> (state: ReceiverState)
        ensures
            state.wf(),
            state@ == TextView::empty(),
    {
        broadcast use vstd::std_specs::hash::group_hash_axioms;

        let state = ReceiverState {
            checksum: None,
            total_packets: 0,
            file_size: 0,
            filename: String::new(),
            chunks: HashMap::new(),
            pending: HashMap::new(),
            pending_checksum: None,
            received_packets: 0,
            complete: false,
        };
        assert(state@ =~= TextView::empty());
        state
    }
}

/// Whether two optional checksums are the same.
fn same_checksum(known: Option<u64>, sum: u64) -> (same: bool)
    ensures
        same == (known == Some(sum)),
{
    match known {
        Some(value) => value == sum,
        None => false,
    }
}

/// Whether a file is the one that was announced.
pub fn text_file_matches(
    file: &[u8],
    filename: &str,
    file_size: usize,
    announced: u64,
) -> (genuine: bool)
    ensures
        genuine == text_genuine(file@, filename@, file_size as nat, announced),
{
    file.len() == file_size && checksum(file, filename.as_bytes()) == announced
}

/// Decodes and unpacks the joined parts, and hands the file out if it is the one
/// that was announced.
pub fn restore_text(
    encoded: &str,
    filename: &str,
    file_size: usize,
    announced: u64,
) -> (file: Option<Vec<u8>>)
    ensures
        file_view(file) == text_restored(encoded@, filename@, file_size as nat, announced),
{
    let compressed: Vec<u8> = base64_decode(encoded)?;
    let file: Vec<u8> = decompress_file(compressed.as_slice())?;
    if text_file_matches(file.as_slice(), filename, file_size, announced) {
        Some(file)
    } else {
        None
    }
}

/// Puts the file together, if every part is there, and hands it out if it is
/// the one announced.
pub fn try_assemble(state: &mut ReceiverState) -> (file: Option<Vec<u8>>)
    requires
        old(state).wf(),
    ensures
        final(state).wf(),
        (final(state)@, file_view(file)) == old(state)@.finished(),
{
    broadcast use vstd::std_specs::hash::group_hash_axioms;

    let ghost before = state@;
    assert(state.chunks@.dom() =~= before.chunks.dom());
    proof {
        lemma_count(before.chunks.dom(), before.total_packets);
    }
    if state.complete || state.received_packets != state.total_packets {
        return None;
    }
    let announced: u64 = state.checksum?;
    let mut encoded: String = String::new();
    let mut index: usize = 0;
    assert(joined(in_order(before.chunks, 0)) =~= Seq::<char>::empty());
    while index < state.total_packets
        invariant
            index <= state.total_packets,
            before.wf(),
            before == state@,
            all_present(before.chunks.dom(), before.total_packets),
            encoded@ == joined(in_order(before.chunks, index as nat)),
        decreases state.total_packets - index,
    {
        assert(before.chunks.dom().contains(index));
        assert(state.chunks@.contains_key(index));
        match state.chunks.get(&index) {
            Some(chunk) => {
                assert(before.chunks[index] == chunk@);
                encoded.append(chunk.as_str());
                proof {
                    lemma_in_order(before.chunks, index as nat);
                }
            },
            None => {
                assert(false);
            },
        }
        index = index + 1;
    }
    let file: Option<Vec<u8>> = restore_text(
        encoded.as_str(),
        state.filename.as_str(),
        state.file_size,
        announced,
    );
    if file.is_some() {
        state.complete = true;
        assert(state@ =~= (TextView { complete: true, ..before }));
    }
    file
}

/// Takes in a header.
pub fn install_header(state: &mut ReceiverState, header: HeaderMetadata) -> (file: Option<Vec<u8>>)
    requires
        old(state).wf(),
        header@.acceptable(),
    ensures
        final(state).wf(),
        (final(state)@, file_view(file)) == old(state)@.installed(header@),
{
    broadcast use vstd::std_specs::hash::group_hash_axioms;

    let ghost before = state@;
    let is_new: bool = !same_checksum(state.checksum, header.checksum) || state.total_packets
        != header.total_packets || state.file_size != header.file_size;
    if is_new {
        let ghost announced = header@;
        let keep: bool = same_checksum(state.pending_checksum, header.checksum);
        let mut pending: HashMap<usize, String> = HashMap::new();
        std::mem::swap(&mut pending, &mut state.pending);
        assert(text_views(pending@) == before.pending);
        let total: usize = header.total_packets;
        let mut chunks: HashMap<usize, String> = HashMap::new();
        let mut received: usize = 0;
        if keep {
            let mut index: usize = 0;
            while index < total
                invariant
                    index <= total <= MAX_TOTAL_PACKETS,
                    received <= index,
                    received == chunks@.dom().len(),
                    forall|i: usize| #[trigger]
                        pending@.contains_key(i) <==> before.pending.contains_key(i) && i >= index,
                    forall|i: usize| #[trigger]
                        pending@.contains_key(i) ==> pending@[i]@ == before.pending[i],
                    forall|i: usize| #[trigger]
                        chunks@.contains_key(i) <==> before.pending.contains_key(i) && i < index,
                    forall|i: usize| #[trigger]
                        chunks@.contains_key(i) ==> chunks@[i]@ == before.pending[i],
                decreases total - index,
            {
                if let Some(chunk) = pending.remove(&index) {
                    chunks.insert(index, chunk);
                    received = received + 1;
                }
                index = index + 1;
            }
        }
        let ghost next = before.begun(announced);
        assert(text_views(chunks@) =~= next.chunks);
        *state = ReceiverState {
            checksum: Some(header.checksum),
            total_packets: total,
            file_size: header.file_size,
            filename: header.filename,
            chunks,
            pending: HashMap::new(),
            pending_checksum: None,
            received_packets: received,
            complete: false,
        };
        assert(state@ =~= next);
        assert(state.chunks@.dom() =~= next.chunks.dom());
    }
    try_assemble(state)
}

/// Takes in a data packet.
pub fn accept_data(state: &mut ReceiverState, data: TextData) -> (file: Option<Vec<u8>>)
    requires
        old(state).wf(),
    ensures
        final(state).wf(),
        (final(state)@, file_view(file)) == (if old(state)@.checksum == Some(data.checksum) {
            old(state)@.stored(data@).finished()
        } else if old(state)@.checksum is None {
            (old(state)@.waiting(data@), None)
        } else {
            (old(state)@, None)
        }),
{
    broadcast use vstd::std_specs::hash::group_hash_axioms;

    let ghost before = state@;
    let ghost value = data.chunk@;
    if !same_checksum(state.checksum, data.checksum) {
        if state.checksum.is_none() {
            if !same_checksum(state.pending_checksum, data.checksum) {
                state.pending.clear();
                state.pending_checksum = Some(data.checksum);
                assert(text_views(state.pending@) =~= Map::<usize, Seq<char>>::empty());
            }
            let ghost held = state@.pending;
            if !state.pending.contains_key(&data.index) {
                state.pending.insert(data.index, data.chunk);
                assert(text_views(state.pending@) =~= held.insert(data.index, value));
            }
            assert(state@ =~= before.waiting(data@));
        }
        return None;
    }
    if data.index < state.total_packets {
        proof {
            assert(state.chunks@.dom() =~= before.chunks.dom());
            lemma_count(before.chunks.dom(), before.total_packets);
        }
        if state.chunks.insert(data.index, data.chunk).is_none() {
            state.received_packets = state.received_packets + 1;
        }
        assert(text_views(state.chunks@) =~= before.chunks.insert(data.index, value));
        assert(state.chunks@.dom() =~= state@.chunks.dom());
    }
    assert(state@ =~= before.stored(data@));
    try_assemble(state)
}

/// Takes in a packet, and hands the file out once it can.
pub fn process_packet(state: &mut ReceiverState, packet: String) -> (file: Option<Vec<u8>>)
    requires
        old(state).wf(),
    ensures
        final(state).wf(),
        (final(state)@, file_view(file)) == old(state)@.processed(packet@),
{
    if begins_with(packet.as_str(), "METADATA|") {
        let header: HeaderMetadata = parse_header(packet.as_str())?;
        return install_header(state, header);
    }
    let data: TextData = parse_data(packet.as_str())?;
    accept_data(state, data)
}

/// Forgets everything.
pub fn reset_receiver(state: &mut ReceiverState)
    ensures
        final(state).wf(),
        final(state)@ == TextView::empty(),
{
    *state = ReceiverState::default();
}

// ---------------------------------------------------------------------------
// What a receiver shows

proof fn lemma_received(state: &ReceiverState)
    requires
        state.wf(),
    ensures
        state.received_packets == state@.chunks.dom().len(),
        state.received_packets <= state.total_packets <= MAX_TOTAL_PACKETS,
{
    assert(state.chunks@.dom() =~= state@.chunks.dom());
    lemma_count(state@.chunks.dom(), state@.total_packets);
}

/// How many parts are there, and how many there are in all.
pub fn receiver_progress(state: &ReceiverState) -> (progress: Vec<u32>)
    requires
        state.wf(),
    ensures
        progress@.len() == 2,
        progress@[0] == state@.chunks.dom().len(),
        progress@[1] == state@.total_packets,
{
    proof {
        lemma_received(state);
    }
    let mut progress: Vec<u32> = Vec::new();
    progress.push(state.received_packets as u32);
    progress.push(state.total_packets as u32);
    progress
}

/// The file name; empty before the header.
pub fn receiver_filename(state: &ReceiverState) -> (name: String)
    ensures
        name@ == state@.filename,
{
    state.filename.clone()
}

/// A one for each part that is there, a zero for each that is missing.
pub fn receiver_packet_map(state: &ReceiverState) -> (map: Vec<u8>)
    ensures
        map@ == flags(state@.present()),
{
    assert(state.chunks@.dom() =~= state@.chunks.dom());
    flag_bytes(&presence(&state.chunks, state.total_packets))
}

/// The ranges of missing parts.
pub fn receiver_missing_ranges(state: &ReceiverState) -> (text: String)
    ensures
        text@ == missing_text(state@.present()),
{
    assert(state.chunks@.dom() =~= state@.chunks.dom());
    missing_list(&presence(&state.chunks, state.total_packets))
}

/// The request for the missing parts; empty before the header.
pub fn receiver_control_packet(state: &ReceiverState) -> (text: String)
    ensures
        text@ == match state@.checksum {
            Some(sum) => request_text(sum, state@.present()),
            None => Seq::<char>::empty(),
        },
{
    assert(state.chunks@.dom() =~= state@.chunks.dom());
    match state.checksum {
        Some(sum) => request_packet(sum, &presence(&state.chunks, state.total_packets)),
        None => String::new(),
    }
}

/// What a receiver reports of a transfer.
#[derive(Debug)]
pub struct ReceiverInfo {
    pub filename: String,
    pub total_packets: usize,
    pub file_size: usize,
    pub checksum: Option<String>,
    pub received_packets: usize,
    pub missing_packets: usize,
    pub complete: bool,
}

impl ReceiverInfo {
    /// Whether the report is true of a receiver.
    pub open spec fn reports(self, state: TextView) -> bool {
        &&& self.filename@ == state.filename
        &&& self.total_packets == state.total_packets
        &&& self.file_size == state.file_size
        &&& match state.checksum {
            Some(sum) => self.checksum is Some && self.checksum->0@ == hex(sum as nat, 16),
            None => self.checksum is None,
        }
        &&& self.received_packets == state.chunks.dom().len()
        &&& self.missing_packets == state.total_packets - state.chunks.dom().len()
        &&& self.complete == state.complete
    }
}

/// The report of a transfer.
pub fn receiver_info(state: &ReceiverState) -> (info: ReceiverInfo)
    requires
        state.wf(),
    ensures
        info.reports(state@),
{
    proof {
        lemma_received(state);
    }
    ReceiverInfo {
        filename: state.filename.clone(),
        total_packets: state.total_packets,
        file_size: state.file_size,
        checksum: match state.checksum {
            Some(sum) => Some(checksum_text(sum)),
            None => None,
        },
        received_packets: state.received_packets,
        missing_packets: state.total_packets - state.received_packets,
        complete: state.complete,
    }
}

} // verus!
