use tona_transfer::binary::{build_binary_packets, BINARY_DATA_TYPE, BINARY_PARITY_TYPE};
use tona_transfer::binary_receiver::{
    binary_receiver_control_packet, binary_receiver_filename, binary_receiver_info,
    binary_receiver_missing_ranges, binary_receiver_packet_map, binary_receiver_progress,
    process_binary_packet, reset_binary_receiver, BinaryReceiverState,
};
use tona_transfer::bytes::{read_u16, read_u32};
use tona_transfer::chars::bytes_hex;
use tona_transfer::checksum::checksum;
use tona_transfer::codec::file_digest;
use tona_transfer::fountain::{
    build_fountain_packets, fountain_header_packet, FountainHeader, FOUNTAIN_DATA_TYPE,
    FOUNTAIN_REPAIR_TYPE,
};
use tona_transfer::fountain_receiver::{
    chunk_known, fountain_receiver_info, fountain_receiver_missing_ranges,
    fountain_receiver_packet_map, fountain_receiver_progress, process_fountain_packet,
    reset_fountain_receiver, FountainReceiverState,
};
use tona_transfer::text::compress_and_split_with_chunk_size;
use tona_transfer::text_receiver::{
    process_packet, receiver_control_packet, receiver_filename, receiver_info,
    receiver_missing_ranges, receiver_packet_map, receiver_progress, reset_receiver, restore_text,
    text_file_matches, ReceiverState,
};

fn noise(length: usize, start: u32) -> Vec<u8> {
    let mut seed = start;
    (0..length)
        .map(|_| {
            seed = seed.wrapping_mul(1_664_525).wrapping_add(1_013_904_223);
            (seed >> 24) as u8
        })
        .collect()
}

/// The packets in an order that depends on a seed, each of them twice.
fn shuffled<T: Clone>(packets: &[T], start: u32) -> Vec<T> {
    let mut list: Vec<T> = packets.iter().chain(packets.iter()).cloned().collect();
    let mut seed = start;
    for i in (1..list.len()).rev() {
        seed = seed.wrapping_mul(1_664_525).wrapping_add(1_013_904_223);
        list.swap(i, (seed >> 8) as usize % (i + 1));
    }
    list
}

fn text_files(state: &mut ReceiverState, packets: &[String]) -> Vec<Vec<u8>> {
    packets
        .iter()
        .filter_map(|packet| process_packet(state, packet.clone()))
        .collect()
}

fn binary_files(state: &mut BinaryReceiverState, packets: &[Vec<u8>]) -> Vec<Vec<u8>> {
    packets
        .iter()
        .filter_map(|packet| process_binary_packet(state, packet.clone()))
        .collect()
}

fn fountain_files(state: &mut FountainReceiverState, packets: &[Vec<u8>]) -> Vec<Vec<u8>> {
    packets
        .iter()
        .filter_map(|packet| process_fountain_packet(state, packet.clone()))
        .collect()
}

#[test]
fn text_delivers_once_in_any_order() {
    let file = noise(7_000, 1);
    let packets = compress_and_split_with_chunk_size(file.clone(), "f.bin".to_string(), 300);
    for seed in 0..8 {
        let mut state = ReceiverState::default();
        let files = text_files(&mut state, &shuffled(&packets, seed));
        assert_eq!(files, vec![file.clone()]);
        assert!(state.complete);
        assert_eq!(receiver_missing_ranges(&state), "");
    }
    let mut empty = ReceiverState::default();
    let packets = compress_and_split_with_chunk_size(Vec::new(), "vacío".to_string(), 300);
    assert_eq!(text_files(&mut empty, &packets), vec![Vec::<u8>::new()]);
}

#[test]
fn text_file_comes_with_the_last_packet() {
    let file = noise(2_500, 25);
    let packets = compress_and_split_with_chunk_size(file.clone(), "f.bin".to_string(), 300);
    for seed in 0..8 {
        let mut state = ReceiverState::default();
        let mut missing: Vec<&String> = packets.iter().collect();
        for packet in shuffled(&packets, seed) {
            let owed = missing.len() == 1 && *missing[0] == packet;
            missing.retain(|other| **other != packet);
            let handed_out = process_packet(&mut state, packet);
            assert_eq!(handed_out.is_some(), owed);
            if owed {
                assert_eq!(handed_out, Some(file.clone()));
            }
            if missing.is_empty() {
                let count = (packets.len() - 1) as u32;
                assert_eq!(receiver_progress(&state), vec![count, count]);
            }
        }
    }
}

#[test]
fn text_receiver_ignores_what_does_not_fit() {
    let file = noise(2_000, 2);
    let other = compress_and_split_with_chunk_size(noise(2_000, 3), "o".to_string(), 300);
    let packets = compress_and_split_with_chunk_size(file.clone(), "f".to_string(), 300);
    let mut state = ReceiverState::default();
    process_packet(&mut state, packets[0].clone());
    process_packet(&mut state, packets[1].clone());
    let before = receiver_packet_map(&state);
    for packet in &other[1..] {
        assert!(process_packet(&mut state, packet.clone()).is_none());
    }
    for text in ["", "DATA", "METADATA|", "METADATA|x|y|z|w", "HELLO|1|2|3"] {
        assert!(process_packet(&mut state, text.to_string()).is_none());
    }
    let beyond = format!("DATA|{:016x}|9999|abc", checksum(&file, b"f"));
    assert!(process_packet(&mut state, beyond).is_none());
    assert_eq!(receiver_packet_map(&state), before);
    assert_eq!(text_files(&mut state, &packets[2..]), vec![file]);
}

#[test]
fn text_keeps_waiting_parts_of_one_transfer() {
    let file = noise(2_000, 4);
    let packets = compress_and_split_with_chunk_size(file.clone(), "f".to_string(), 300);
    let other = compress_and_split_with_chunk_size(noise(2_000, 5), "o".to_string(), 300);
    let mut state = ReceiverState::default();
    process_packet(&mut state, packets[1].clone());
    process_packet(&mut state, other[1].clone());
    process_packet(&mut state, packets[2].clone());
    process_packet(&mut state, packets[0].clone());
    assert_eq!(receiver_progress(&state)[0], 1);
    assert_eq!(receiver_packet_map(&state)[..3], [0, 1, 0]);
}

#[test]
fn text_of_another_transfer_starts_anew() {
    let first = compress_and_split_with_chunk_size(noise(2_000, 6), "a".to_string(), 300);
    let file = noise(2_000, 7);
    let second = compress_and_split_with_chunk_size(file.clone(), "b".to_string(), 300);
    let mut state = ReceiverState::default();
    process_packet(&mut state, first[0].clone());
    process_packet(&mut state, first[1].clone());
    process_packet(&mut state, second[0].clone());
    assert_eq!(receiver_progress(&state)[0], 0);
    assert_eq!(receiver_filename(&state), "b");
    assert_eq!(text_files(&mut state, &second), vec![file]);
    reset_receiver(&mut state);
    assert_eq!(receiver_progress(&state), vec![0, 0]);
    assert_eq!(receiver_filename(&state), "");
    assert_eq!(receiver_control_packet(&state), "");
    let info = receiver_info(&state);
    assert_eq!(info.checksum, None);
    assert!(!info.complete);
}

#[test]
fn text_with_a_wrong_checksum_is_held_back() {
    let file = noise(1_000, 8);
    let packets = compress_and_split_with_chunk_size(file.clone(), "f".to_string(), 300);
    let sum = format!("{:016x}", checksum(&file, b"f"));
    let forged: Vec<String> = packets
        .iter()
        .map(|packet| packet.replace(&sum, "0000000000000001"))
        .collect();
    let mut state = ReceiverState::default();
    assert!(text_files(&mut state, &forged).is_empty());
    let info = receiver_info(&state);
    assert!(!info.complete);
    assert_eq!(info.missing_packets, 0);
    assert_eq!(info.checksum, Some("0000000000000001".to_string()));
    assert!(text_file_matches(&file, "f", 1_000, checksum(&file, b"f")));
    assert!(!text_file_matches(&file, "f", 999, checksum(&file, b"f")));
    assert!(!text_file_matches(&file, "g", 1_000, checksum(&file, b"f")));
    assert_eq!(restore_text("no base64", "f", 0, 0), None);
    assert_eq!(restore_text("/////w==", "f", 0, 0), None);
}

#[test]
fn text_report_and_request_agree_with_the_map() {
    let file = noise(3_000, 9);
    let packets = compress_and_split_with_chunk_size(file.clone(), "f".to_string(), 300);
    let mut state = ReceiverState::default();
    process_packet(&mut state, packets[0].clone());
    for index in [0, 1, 4, 6, 7] {
        process_packet(&mut state, packets[1 + index].clone());
        process_packet(&mut state, packets[1 + index].clone());
    }
    let last = packets.len() - 2;
    let map = receiver_packet_map(&state);
    let ones = map.iter().filter(|flag| **flag == 1).count();
    assert_eq!(ones, 5);
    assert_eq!(receiver_progress(&state), vec![5, packets.len() as u32 - 1]);
    assert_eq!(receiver_missing_ranges(&state), format!("2-3,5,8-{last}"));
    assert_eq!(
        receiver_control_packet(&state),
        format!("REQUEST|{:016x}|2-3,5,8-{last}", checksum(&file, b"f"))
    );
    let info = receiver_info(&state);
    assert_eq!(info.received_packets, 5);
    assert_eq!(info.missing_packets, packets.len() - 6);
    assert_eq!(info.file_size, 3_000);
}

#[test]
fn binary_delivers_once_in_any_order() {
    let file = noise(9_000, 10);
    for group in [0, 8] {
        let packets = build_binary_packets(&file, "f.bin", 400, group).expect("packets");
        for seed in 0..8 {
            let mut state = BinaryReceiverState::default();
            let files = binary_files(&mut state, &shuffled(&packets, seed));
            assert_eq!(files, vec![file.clone()]);
            assert!(state.complete);
            assert_eq!(binary_receiver_filename(&state), "f.bin");
        }
    }
    let text = vec![b'a'; 20_000];
    let packets = build_binary_packets(&text, "a.txt", 400, 8).expect("packets");
    let mut state = BinaryReceiverState::default();
    assert_eq!(binary_files(&mut state, &shuffled(&packets, 3)), vec![text]);
    let info = binary_receiver_info(&state).expect("header");
    assert_eq!(info.codec, "deflate");
    let mut empty = BinaryReceiverState::default();
    let packets = build_binary_packets(&[], "e", 400, 8).expect("packets");
    assert_eq!(binary_files(&mut empty, &packets), vec![Vec::<u8>::new()]);
}

#[test]
fn binary_rebuilds_one_loss_in_each_group() {
    let file = noise(9_000, 11);
    let packets = build_binary_packets(&file, "f.bin", 400, 8).expect("packets");
    let kept: Vec<Vec<u8>> = packets
        .iter()
        .filter(|packet| {
            packet[3] != BINARY_DATA_TYPE || !matches!(read_u32(packet, 12), Some(0 | 15 | 22))
        })
        .cloned()
        .collect();
    for seed in 0..8 {
        let mut state = BinaryReceiverState::default();
        assert_eq!(binary_files(&mut state, &shuffled(&kept, seed)), vec![file.clone()]);
        let info = binary_receiver_info(&state).expect("header");
        assert_eq!(info.recovered_packets, 3);
        assert_eq!(info.missing_packets, 0);
        assert_eq!(info.codec, "raw");
        assert_eq!(info.sha256, Some(bytes_hex(&file_digest(&file, b"f.bin"))));
    }
}

#[test]
fn binary_asks_for_two_losses_in_a_group() {
    let file = noise(9_000, 12);
    let packets = build_binary_packets(&file, "f.bin", 400, 8).expect("packets");
    let lost = |packet: &Vec<u8>| {
        packet[3] == BINARY_DATA_TYPE && matches!(read_u32(packet, 12), Some(9 | 13))
    };
    let kept: Vec<Vec<u8>> = packets.iter().filter(|p| !lost(p)).cloned().collect();
    let mut state = BinaryReceiverState::default();
    assert!(binary_files(&mut state, &kept).is_empty());
    assert_eq!(binary_receiver_missing_ranges(&state), "9,13");
    assert_eq!(
        binary_receiver_control_packet(&state),
        format!("REQUEST|{:016x}|9,13", checksum(&file, b"f.bin"))
    );
    assert_eq!(binary_receiver_progress(&state), vec![21, 23]);
    let map = binary_receiver_packet_map(&state);
    assert_eq!(map.iter().filter(|flag| **flag == 1).count(), 21);
    let again: Vec<Vec<u8>> = packets.iter().filter(|p| lost(p)).cloned().collect();
    assert_eq!(binary_files(&mut state, &again[..1]), vec![file]);
    assert_eq!(binary_receiver_missing_ranges(&state), "");
}

#[test]
fn binary_duplicates_and_foreign_packets_change_nothing() {
    let file = noise(9_000, 13);
    let packets = build_binary_packets(&file, "f.bin", 400, 8).expect("packets");
    let other = build_binary_packets(&noise(9_000, 14), "o.bin", 400, 8).expect("packets");
    let mut state = BinaryReceiverState::default();
    binary_files(&mut state, &packets[..10]);
    let map = binary_receiver_packet_map(&state);
    assert!(binary_files(&mut state, &packets[..10]).is_empty());
    assert!(binary_files(&mut state, &other[1..]).is_empty());
    let mut short = packets[12].clone();
    short.pop();
    assert!(binary_files(&mut state, &[short, vec![1, 2, 3], b"TN2\x07....".to_vec()]).is_empty());
    assert_eq!(binary_receiver_packet_map(&state), map);
    assert!(state.pending.is_empty());
    assert_eq!(binary_files(&mut state, &packets), vec![file]);
    assert!(binary_files(&mut state, &packets).is_empty());
    process_binary_packet(&mut state, other[0].clone());
    assert_eq!(binary_receiver_progress(&state)[0], 0);
    assert!(!state.complete);
    reset_binary_receiver(&mut state);
    assert!(binary_receiver_info(&state).is_none());
    assert_eq!(binary_receiver_control_packet(&state), "");
    assert_eq!(binary_receiver_filename(&state), "");
    assert_eq!(binary_receiver_packet_map(&state), Vec::<u8>::new());
}

#[test]
fn binary_tampered_parity_is_noticed() {
    let file = noise(3_000, 15);
    let mut packets = build_binary_packets(&file, "f.bin", 400, 8).expect("packets");
    let last = packets.len() - 1;
    assert_eq!(packets[last][3], BINARY_PARITY_TYPE);
    packets[last][20] ^= 1;
    packets.remove(2);
    let mut state = BinaryReceiverState::default();
    assert!(binary_files(&mut state, &packets).is_empty());
    let info = binary_receiver_info(&state).expect("header");
    assert_eq!(info.missing_packets, 0);
    assert!(!info.complete);
}

#[test]
fn binary_genuine_packet_replaces_a_corrupt_copy() {
    let file = noise(3_000, 24);
    let packets = build_binary_packets(&file, "f.bin", 400, 0).expect("packets");
    for broken in 1..packets.len() {
        let mut sent = packets.clone();
        assert_eq!(sent[broken][3], BINARY_DATA_TYPE);
        let last = sent[broken].len() - 1;
        sent[broken][last] ^= 1;
        let mut state = BinaryReceiverState::default();
        assert!(binary_files(&mut state, &sent).is_empty());
        let info = binary_receiver_info(&state).expect("header");
        assert_eq!(info.missing_packets, 0);
        assert!(!info.complete);
        // Nothing but the genuine packet helps.
        assert!(process_binary_packet(&mut state, packets[0].clone()).is_none());
        assert!(process_binary_packet(&mut state, sent[broken].clone()).is_none());
        assert_eq!(
            process_binary_packet(&mut state, packets[broken].clone()),
            Some(file.clone())
        );
        assert!(state.complete);
    }
}

#[test]
fn binary_waits_with_a_bounded_number_of_packets() {
    let file = noise(1_000, 16);
    let packets = build_binary_packets(&file, "f.bin", 400, 0).expect("packets");
    let mut state = BinaryReceiverState::default();
    for _ in 0..10_000 {
        process_binary_packet(&mut state, packets[1].clone());
    }
    process_binary_packet(&mut state, packets[2].clone());
    assert_eq!(state.pending.len(), 10_000);
    process_binary_packet(&mut state, packets[0].clone());
    assert_eq!(binary_receiver_missing_ranges(&state), "1-2");
    assert_eq!(binary_files(&mut state, &packets), vec![file]);
}

#[test]
fn fountain_delivers_once_in_any_order() {
    let file = noise(30_000, 17);
    let packets = build_fountain_packets(&file, "f.bin", 400, 20).expect("packets");
    let without_repairs: Vec<Vec<u8>> = packets
        .iter()
        .filter(|packet| packet[3] != FOUNTAIN_REPAIR_TYPE)
        .cloned()
        .collect();
    for seed in 0..6 {
        let mut state = FountainReceiverState::default();
        assert_eq!(fountain_files(&mut state, &shuffled(&packets, seed)), vec![file.clone()]);
        assert!(state.complete);
        let mut state = FountainReceiverState::default();
        let files = fountain_files(&mut state, &shuffled(&without_repairs, seed));
        assert_eq!(files, vec![file.clone()]);
        let info = fountain_receiver_info(&state).expect("header");
        assert_eq!(info.recovered_packets, 0);
        assert_eq!(info.received_symbols, 75);
        assert_eq!(info.repair_packets, 17);
    }
    let mut empty = FountainReceiverState::default();
    let packets = build_fountain_packets(&[], "e", 400, 10).expect("packets");
    assert_eq!(fountain_files(&mut empty, &packets), vec![Vec::<u8>::new()]);
}

#[test]
fn fountain_solves_a_window_from_repairs_alone() {
    let file = noise(350, 18);
    let packets = build_fountain_packets(&file, "f.bin", 400, 10).expect("packets");
    assert_eq!(packets.len(), 3);
    let mut state = FountainReceiverState::default();
    process_fountain_packet(&mut state, packets[2].clone());
    assert_eq!(state.pending.len(), 1);
    assert_eq!(process_fountain_packet(&mut state, packets[0].clone()), Some(file));
    let info = fountain_receiver_info(&state).expect("header");
    assert_eq!(info.recovered_packets, 1);
    assert_eq!(info.received_symbols, 1);
    assert_eq!(info.strategy, "fountain-lt");
}

#[test]
fn fountain_map_progress_and_ranges_agree() {
    let file = noise(30_000, 19);
    let packets = build_fountain_packets(&file, "f.bin", 400, 0).expect("packets");
    let mut state = FountainReceiverState::default();
    assert_eq!(fountain_receiver_progress(&state), vec![0, 0]);
    assert_eq!(fountain_receiver_missing_ranges(&state), "");
    assert!(fountain_receiver_info(&state).is_none());
    process_fountain_packet(&mut state, packets[0].clone());
    for index in 0..75 {
        if !matches!(index, 3 | 31 | 32 | 70) {
            process_fountain_packet(&mut state, packets[1 + index].clone());
        }
    }
    assert_eq!(fountain_receiver_progress(&state), vec![71, 75]);
    assert_eq!(fountain_receiver_missing_ranges(&state), "3,31-32,70");
    let map = fountain_receiver_packet_map(&state);
    assert_eq!(map.iter().filter(|flag| **flag == 1).count(), 71);
    assert!(chunk_known(&state, 0));
    assert!(!chunk_known(&state, 70));
    assert!(!chunk_known(&state, 75));
    let info = fountain_receiver_info(&state).expect("header");
    assert_eq!(info.missing_packets, 4);
}

#[test]
fn fountain_duplicates_and_foreign_packets_bring_nothing() {
    let file = noise(30_000, 20);
    let packets = build_fountain_packets(&file, "f.bin", 400, 20).expect("packets");
    let other = build_fountain_packets(&noise(30_000, 21), "o.bin", 400, 20).expect("packets");
    let mut state = FountainReceiverState::default();
    fountain_files(&mut state, &packets[..40]);
    let map = fountain_receiver_packet_map(&state);
    let symbols = state.received_symbols;
    assert_eq!(symbols, 39);
    assert!(fountain_files(&mut state, &packets[..40]).is_empty());
    assert!(fountain_files(&mut state, &other[1..]).is_empty());
    let mut beyond = packets[packets.len() - 1].clone();
    beyond[13] = 3;
    let mut nothing = packets[packets.len() - 1].clone();
    nothing[14..18].copy_from_slice(&[0, 0, 0, 0]);
    let mut wide = packets[packets.len() - 1].clone();
    wide[14] = 0x80;
    let mut short = packets[50].clone();
    short.pop();
    let odd = [beyond, nothing, wide, short, b"TNF\x09".to_vec(), vec![1, 2, 3]];
    assert!(fountain_files(&mut state, &odd).is_empty());
    assert_eq!(fountain_receiver_packet_map(&state), map);
    assert_eq!(state.received_symbols, symbols);
    assert!(state.pending.is_empty());
    assert_eq!(fountain_files(&mut state, &packets), vec![file]);
    assert!(fountain_files(&mut state, &packets).is_empty());
    process_fountain_packet(&mut state, other[0].clone());
    assert_eq!(fountain_receiver_progress(&state), vec![0, 75]);
    reset_fountain_receiver(&mut state);
    assert!(fountain_receiver_info(&state).is_none());
}

/// A header of three chunks, a repair packet that mixes all of them, and the data
/// packet of the first.
fn three_chunks() -> [Vec<u8>; 3] {
    let header = FountainHeader {
        codec: 0,
        checksum: 0,
        digest: [0; 32],
        file_size: 1_200,
        compressed_size: 1_200,
        chunk_size: 400,
        data_packets: 3,
        overhead_percent: 10,
        repair_packets: 1,
        filename: "a".to_string(),
    };
    let mut repair = b"TNF\x02".to_vec();
    repair.extend_from_slice(&[0; 8]);
    repair.extend_from_slice(&[0, 0]);
    repair.extend_from_slice(&[0, 0, 0, 7]);
    repair.extend_from_slice(&[1; 400]);
    let mut data = b"TNF\x01".to_vec();
    data.extend_from_slice(&[0; 8]);
    data.extend_from_slice(&[0, 0, 0, 0]);
    data.extend_from_slice(&[9; 400]);
    [fountain_header_packet(&header), repair, data]
}

#[test]
fn fountain_shows_a_chunk_as_soon_as_it_arrives() {
    let [header, repair, data] = three_chunks();
    for order in [[&repair, &data], [&data, &repair]] {
        let mut state = FountainReceiverState::default();
        assert!(process_fountain_packet(&mut state, header.clone()).is_none());
        assert_eq!(fountain_receiver_packet_map(&state), vec![0, 0, 0]);
        for packet in order {
            assert!(process_fountain_packet(&mut state, packet.clone()).is_none());
        }
        assert_eq!(fountain_receiver_packet_map(&state), vec![1, 0, 0]);
        assert_eq!(fountain_receiver_progress(&state), vec![1, 3]);
        assert_eq!(fountain_receiver_missing_ranges(&state), "1-2");
        assert_eq!(state.received_symbols, 2);
        assert_eq!(state.recovered_packets, 0);
    }
    let mut late = FountainReceiverState::default();
    for packet in [&repair, &data, &header] {
        assert!(process_fountain_packet(&mut late, packet.clone()).is_none());
    }
    assert_eq!(fountain_receiver_packet_map(&late), vec![1, 0, 0]);
}

#[test]
fn fountain_repeated_packets_change_nothing() {
    let file = noise(800, 22);
    let packets = build_fountain_packets(&file, "f.bin", 400, 50).expect("packets");
    let mut repair = packets
        .iter()
        .find(|packet| packet[3] == FOUNTAIN_REPAIR_TYPE)
        .expect("repair")
        .clone();
    // The mix of both chunks.
    repair[14..18].copy_from_slice(&[0, 0, 0, 3]);
    for at in 0..400 {
        repair[18 + at] = packets[1][16 + at] ^ packets[2][16 + at];
    }
    assert_eq!(read_u16(&repair, 12), Some(0));
    assert_eq!(read_u32(&repair, 14), Some(3));
    let mut state = FountainReceiverState::default();
    process_fountain_packet(&mut state, packets[0].clone());
    process_fountain_packet(&mut state, repair.clone());
    assert_eq!(packets[1][3], FOUNTAIN_DATA_TYPE);
    assert_eq!(process_fountain_packet(&mut state, packets[1].clone()), Some(file));
    let recovered = state.recovered_packets;
    assert_eq!(recovered, 0);
    for packet in [&repair, &packets[1], &repair] {
        assert!(process_fountain_packet(&mut state, packet.clone()).is_none());
        assert_eq!(state.recovered_packets, recovered);
        assert_eq!(state.received_symbols, 2);
        assert_eq!(fountain_receiver_packet_map(&state), vec![1, 1]);
    }
}

#[test]
fn fountain_counts_what_a_repair_recovers() {
    let file = noise(800, 27);
    let packets = build_fountain_packets(&file, "f.bin", 400, 50).expect("packets");
    let mut repair = packets[packets.len() - 1].clone();
    assert_eq!(repair[3], FOUNTAIN_REPAIR_TYPE);
    repair[14..18].copy_from_slice(&[0, 0, 0, 3]);
    for at in 0..400 {
        repair[18 + at] = packets[1][16 + at] ^ packets[2][16 + at];
    }
    let mut state = FountainReceiverState::default();
    process_fountain_packet(&mut state, packets[0].clone());
    process_fountain_packet(&mut state, packets[1].clone());
    assert_eq!(process_fountain_packet(&mut state, repair.clone()), Some(file));
    assert_eq!(state.recovered_packets, 1);
    assert!(process_fountain_packet(&mut state, repair).is_none());
    assert_eq!(state.recovered_packets, 1);
}

#[test]
fn fountain_tampered_payload_is_noticed() {
    let file = noise(3_000, 23);
    let mut packets = build_fountain_packets(&file, "f.bin", 400, 0).expect("packets");
    packets[3][30] ^= 0x40;
    let mut state = FountainReceiverState::default();
    assert!(fountain_files(&mut state, &packets).is_empty());
    let info = fountain_receiver_info(&state).expect("header");
    assert!(!info.complete);
    assert_eq!(info.missing_packets, 0);
}

#[test]
fn fountain_waits_with_a_bounded_number_of_packets() {
    let file = noise(1_000, 24);
    let packets = build_fountain_packets(&file, "f.bin", 400, 0).expect("packets");
    let mut state = FountainReceiverState::default();
    for _ in 0..10_000 {
        process_fountain_packet(&mut state, packets[1].clone());
    }
    process_fountain_packet(&mut state, packets[2].clone());
    assert_eq!(state.pending.len(), 10_000);
    process_fountain_packet(&mut state, packets[0].clone());
    assert_eq!(fountain_receiver_missing_ranges(&state), "1-2");
    assert_eq!(state.received_symbols, 1);
    assert_eq!(fountain_files(&mut state, &packets), vec![file]);
}

#[test]
fn largest_file_arrives_over_each_transport() {
    let file = noise(1_536 * 1024, 26);
    let text = compress_and_split_with_chunk_size(file.clone(), "f.bin".to_string(), 1_500);
    assert_eq!(text_files(&mut ReceiverState::default(), &text), vec![file.clone()]);
    let binary = build_binary_packets(&file, "f.bin", 1_800, 8).expect("packets");
    assert_eq!(binary_files(&mut BinaryReceiverState::default(), &binary), vec![file.clone()]);
    let fountain = build_fountain_packets(&file, "f.bin", 1_800, 10).expect("packets");
    assert_eq!(fountain_files(&mut FountainReceiverState::default(), &fountain), vec![file]);
}

#[test]
fn text_with_too_many_parts_brings_nothing() {
    let file = noise(3_000, 28);
    let packets = compress_and_split_with_chunk_size(file.clone(), "f.bin".to_string(), 300);
    let fields: Vec<&str> = packets[0].split('|').collect();
    for (count, accepted) in [(10_001, false), (10_000, true)] {
        let header = format!("METADATA|{}|{}|{}|{}", fields[1], count, fields[3], fields[4]);
        let mut state = ReceiverState::default();
        let mut sent = packets.clone();
        sent[0] = header;
        assert!(text_files(&mut state, &sent).is_empty());
        assert_eq!(receiver_filename(&state) == "f.bin", accepted);
        assert_eq!(receiver_progress(&state)[1], if accepted { 10_000 } else { 0 });
    }
}

#[test]
fn text_of_the_largest_file_fits_in_parts_of_every_size() {
    let file = noise(1_536 * 1024, 29);
    for chunk in [300u32, 600] {
        let packets =
            compress_and_split_with_chunk_size(file.clone(), "f.bin".to_string(), chunk);
        assert!(packets.len() <= 10_001);
        let mut state = ReceiverState::default();
        let backwards: Vec<String> = packets.iter().rev().cloned().collect();
        assert_eq!(text_files(&mut state, &backwards), vec![file.clone()]);
        let count = (packets.len() - 1) as u32;
        assert_eq!(receiver_progress(&state), vec![count, count]);
    }
}
