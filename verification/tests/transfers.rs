use tona_transfer::binary::{build_binary_packets, BINARY_DATA_FIXED_BYTES, BINARY_DATA_TYPE};
use tona_transfer::binary_receiver::{
    binary_receiver_info, binary_receiver_progress, process_binary_packet, reset_binary_receiver,
    BinaryReceiverState,
};
use tona_transfer::bytes::read_u32;
use tona_transfer::fountain::{build_fountain_packets, FOUNTAIN_DATA_TYPE};
use tona_transfer::fountain_receiver::{
    fountain_receiver_info, fountain_receiver_missing_ranges, process_fountain_packet,
    reset_fountain_receiver, FountainReceiverState,
};
use tona_transfer::text::compress_and_split_with_chunk_size;
use tona_transfer::text_receiver::{
    process_packet, receiver_control_packet, receiver_filename, receiver_info,
    receiver_missing_ranges, receiver_packet_map, receiver_progress, reset_receiver, ReceiverState,
};

use serde_json::Value;

fn text_report(state: &ReceiverState) -> String {
    let info = receiver_info(state);
    let mut map = serde_json::Map::new();
    map.insert("filename".to_string(), Value::from(info.filename));
    map.insert("total_packets".to_string(), Value::from(info.total_packets));
    map.insert("file_size".to_string(), Value::from(info.file_size));
    map.insert("checksum".to_string(), Value::from(info.checksum));
    map.insert("received_packets".to_string(), Value::from(info.received_packets));
    map.insert("missing_packets".to_string(), Value::from(info.missing_packets));
    map.insert("complete".to_string(), Value::from(info.complete));
    Value::Object(map).to_string()
}

fn binary_report(state: &BinaryReceiverState) -> String {
    let mut map = serde_json::Map::new();
    if let Some(info) = binary_receiver_info(state) {
        map.insert("filename".to_string(), Value::from(info.filename));
        map.insert("total_packets".to_string(), Value::from(info.total_packets));
        map.insert("received_packets".to_string(), Value::from(info.received_packets));
        map.insert("missing_packets".to_string(), Value::from(info.missing_packets));
        map.insert("file_size".to_string(), Value::from(info.file_size));
        map.insert("compressed_size".to_string(), Value::from(info.compressed_size));
        map.insert("checksum".to_string(), Value::from(info.checksum));
        map.insert("sha256".to_string(), Value::from(info.sha256));
        map.insert("codec".to_string(), Value::from(info.codec));
        map.insert("fec_group_size".to_string(), Value::from(info.fec_group_size));
        map.insert("recovered_packets".to_string(), Value::from(info.recovered_packets));
        map.insert("complete".to_string(), Value::from(info.complete));
    }
    Value::Object(map).to_string()
}

fn fountain_report(state: &FountainReceiverState) -> String {
    let mut map = serde_json::Map::new();
    if let Some(info) = fountain_receiver_info(state) {
        map.insert("strategy".to_string(), Value::from(info.strategy));
        map.insert("filename".to_string(), Value::from(info.filename));
        map.insert("total_packets".to_string(), Value::from(info.total_packets));
        map.insert("received_packets".to_string(), Value::from(info.received_packets));
        map.insert("missing_packets".to_string(), Value::from(info.missing_packets));
        map.insert("file_size".to_string(), Value::from(info.file_size));
        map.insert("compressed_size".to_string(), Value::from(info.compressed_size));
        map.insert("checksum".to_string(), Value::from(info.checksum));
        map.insert("sha256".to_string(), Value::from(info.sha256));
        map.insert("codec".to_string(), Value::from(info.codec));
        map.insert("overhead_percent".to_string(), Value::from(info.overhead_percent));
        map.insert("repair_packets".to_string(), Value::from(info.repair_packets));
        map.insert("received_symbols".to_string(), Value::from(info.received_symbols));
        map.insert("recovered_packets".to_string(), Value::from(info.recovered_packets));
        map.insert("complete".to_string(), Value::from(info.complete));
    }
    Value::Object(map).to_string()
}

#[test]
fn compressed_round_trip_allows_out_of_order_packets() {
    let input: Vec<u8> = (0..10_000).map(|value| (value % 251) as u8).collect();
    let packets = compress_and_split_with_chunk_size(input.clone(), "foto.bin".to_string(), 600);

    let mut state = ReceiverState::default();
    reset_receiver(&mut state);
    for packet in packets.iter().skip(1).rev() {
        assert!(process_packet(&mut state, packet.clone()).is_none());
    }
    let output =
        process_packet(&mut state, packets[0].clone()).expect("transfer should complete");
    assert_eq!(output, input);
    assert_eq!(receiver_filename(&state), "foto.bin");
    assert_eq!(
        receiver_progress(&state).to_vec(),
        vec![packets.len() as u32 - 1; 2]
    );
}

#[test]
fn duplicate_packets_are_ignored() {
    let mut seed = 0x1234_5678u32;
    let input: Vec<u8> = (0..5_000)
        .map(|_| {
            seed = seed.wrapping_mul(1_664_525).wrapping_add(1_013_904_223);
            (seed >> 24) as u8
        })
        .collect();
    let packets =
        compress_and_split_with_chunk_size(input.clone(), "repetido.dat".to_string(), 600);
    let mut state = ReceiverState::default();
    reset_receiver(&mut state);
    assert!(process_packet(&mut state, packets[0].clone()).is_none());
    assert!(process_packet(&mut state, packets[1].clone()).is_none());
    assert!(process_packet(&mut state, packets[1].clone()).is_none());
    let mut output = None;
    for packet in packets.iter().skip(2) {
        output = process_packet(&mut state, packet.clone());
    }
    let output = output.expect("all data packets received");
    assert_eq!(output, input);
}

#[test]
fn data_packets_can_arrive_before_metadata() {
    let input = vec![7u8; 2_000];
    let packets = compress_and_split_with_chunk_size(input.clone(), "antes.bin".to_string(), 600);
    let mut state = ReceiverState::default();
    reset_receiver(&mut state);
    for packet in packets.iter().skip(1) {
        assert!(process_packet(&mut state, packet.clone()).is_none());
    }
    let output =
        process_packet(&mut state, packets[0].clone()).expect("pending data should attach");
    assert_eq!(output, input);
}

#[test]
fn receiver_exposes_metadata_map_and_missing_ranges() {
    let mut seed = 0x9e37_79b9u32;
    let input: Vec<u8> = (0..12_000)
        .map(|_| {
            seed = seed.wrapping_mul(1_664_525).wrapping_add(1_013_904_223);
            (seed >> 24) as u8
        })
        .collect();
    let packets = compress_and_split_with_chunk_size(input, "imagen.tar.gz".to_string(), 300);
    let mut state = ReceiverState::default();
    reset_receiver(&mut state);
    process_packet(&mut state, packets[0].clone());
    process_packet(&mut state, packets[1].clone());
    process_packet(&mut state, packets[3].clone());

    let map = receiver_packet_map(&state);
    assert_eq!(map[0], 1);
    assert_eq!(map[1], 0);
    assert_eq!(map[2], 1);
    assert!(receiver_missing_ranges(&state).contains('1'));
    assert!(receiver_control_packet(&state).starts_with("REQUEST|"));
    assert!(text_report(&state).contains("imagen.tar.gz"));
}

#[test]
fn binary_protocol_uses_fec_to_recover_one_missing_packet() {
    let mut seed = 0x1234_5678u32;
    let input: Vec<u8> = (0..24_000)
        .map(|_| {
            seed = seed.wrapping_mul(1_664_525).wrapping_add(1_013_904_223);
            (seed >> 24) as u8
        })
        .collect();
    let packets = build_binary_packets(&input, "video.bin", 800, 8).expect("packets");
    let mut state = BinaryReceiverState::default();
    reset_binary_receiver(&mut state);

    process_binary_packet(&mut state, packets[0].clone());
    // Skip data packet 3. All remaining data and parity packets are sent.
    let mut output = None;
    for packet in packets.iter().skip(1) {
        let is_missing_data =
            packet.get(3) == Some(&BINARY_DATA_TYPE) && read_u32(packet, 12) == Some(3);
        if !is_missing_data {
            output = process_binary_packet(&mut state, packet.clone()).or(output);
        }
    }

    let progress = binary_receiver_progress(&state);
    assert_eq!(progress[0], progress[1]);
    assert_eq!(output.expect("assembled file"), input);
    assert!(binary_report(&state).contains("recovered_packets"));
}

#[test]
fn binary_protocol_accepts_data_before_header() {
    let input = vec![42u8; 5_000];
    let packets = build_binary_packets(&input, "antes.dat", 800, 0).expect("packets");
    let mut state = BinaryReceiverState::default();
    reset_binary_receiver(&mut state);
    process_binary_packet(&mut state, packets[1].clone());
    let output = process_binary_packet(&mut state, packets[0].clone()).expect("pending data");
    assert_eq!(output, input);
    assert!(binary_report(&state).contains("antes.dat"));
}

#[test]
fn fountain_protocol_recovers_multiple_missing_source_packets() {
    let mut seed = 0x3141_5926u32;
    let input: Vec<u8> = (0..20_000)
        .map(|_| {
            seed = seed.wrapping_mul(1_664_525).wrapping_add(1_013_904_223);
            (seed >> 24) as u8
        })
        .collect();
    let packets = build_fountain_packets(&input, "fountain.bin", 600, 30).expect("packets");
    let mut state = FountainReceiverState::default();
    reset_fountain_receiver(&mut state);
    let mut output = None;
    for packet in &packets {
        let skip = packet.get(3) == Some(&FOUNTAIN_DATA_TYPE)
            && matches!(read_u32(packet, 12), Some(3 | 7 | 11));
        if !skip {
            output = process_fountain_packet(&mut state, packet.clone()).or(output);
        }
    }
    let output = match output {
        Some(output) => output,
        None => {
            let info = fountain_report(&state);
            let missing = fountain_receiver_missing_ranges(&state);
            panic!("fountain should assemble file: info={info} missing={missing}");
        }
    };
    assert_eq!(output, input);
    assert!(fountain_report(&state).contains("fountain-lt"));
    assert!(fountain_report(&state).contains("\"recovered_packets\":3"));
}

#[test]
fn binary_protocol_rejects_tampered_payload() {
    let input: Vec<u8> = (0..8_000).map(|value| (value % 251) as u8).collect();
    let mut packets = build_binary_packets(&input, "integro.bin", 600, 0).expect("packets");
    packets[1][BINARY_DATA_FIXED_BYTES] ^= 0x80;
    let mut state = BinaryReceiverState::default();
    reset_binary_receiver(&mut state);
    process_binary_packet(&mut state, packets[0].clone());
    let mut output = None;
    for packet in packets.iter().skip(1) {
        output = process_binary_packet(&mut state, packet.clone()).or(output);
    }
    assert!(output.is_none());
    assert!(binary_report(&state).contains("\"complete\":false"));
}
