use base64::engine::general_purpose::STANDARD;
use base64::Engine;
use tona_transfer::binary::{
    binary_header_for, binary_header_packet, binary_packets_for, build_binary_packets,
    parse_binary_header, prepare_binary_packets, BINARY_HEADER_FIXED_BYTES,
};
use tona_transfer::bytes::{
    bytes_equal, copy_range, pad, push_u16, push_u32, push_u64, read_u16, read_u32, read_u64,
    xor_into,
};
use tona_transfer::chars::{
    begins_with, bytes_hex, checksum_text, contains_char, filename_is_valid, parse_checksum,
    parse_count, same_text, split_fields,
};
use tona_transfer::checksum::checksum;
use tona_transfer::codec::{
    compress_file, decompress_file, file_digest, MAX_BLOCK_BYTES, MIN_BLOCK_DATA,
};
use tona_transfer::fountain::{
    build_fountain_packets, count_repairs, fountain_header_for, fountain_header_packet,
    fountain_packets_for, parse_fountain_header, prepare_fountain_packets, repairs_for_width,
    width_of_window, FOUNTAIN_HEADER_FIXED_BYTES,
};
use tona_transfer::mask::{fountain_mask, next_fountain_random};
use tona_transfer::ranges::{missing_list, request_packet};
use tona_transfer::store::flag_bytes;
use tona_transfer::text::{
    compress_and_split, compress_and_split_with_chunk_size, parse_data, parse_header, prepare_file,
    text_packets_for,
};
use tona_transfer::transfer::{
    binary_compress, choose_codec, count_chunks, cut, file_matches, piece_len, restore, unpack,
};
use tona_transfer::window::{FountainEquation, FountainWindow};

fn noise(length: usize, start: u32) -> Vec<u8> {
    let mut seed = start;
    (0..length)
        .map(|_| {
            seed = seed.wrapping_mul(1_664_525).wrapping_add(1_013_904_223);
            (seed >> 24) as u8
        })
        .collect()
}

#[test]
fn numbers_are_big_endian() {
    let mut bytes = Vec::new();
    push_u16(&mut bytes, 0x1_0203);
    push_u32(&mut bytes, 0x0405_0607);
    push_u64(&mut bytes, 0x0809_0a0b_0c0d_0e0f);
    assert_eq!(bytes, vec![2, 3, 4, 5, 6, 7, 8, 9, 10, 11, 12, 13, 14, 15]);
    assert_eq!(read_u16(&bytes, 0), Some(0x0203));
    assert_eq!(read_u32(&bytes, 2), Some(0x0405_0607));
    assert_eq!(read_u64(&bytes, 6), Some(0x0809_0a0b_0c0d_0e0f));
    assert_eq!(read_u16(&bytes, 13), None);
    assert_eq!(read_u32(&bytes, 11), None);
    assert_eq!(read_u64(&bytes, 7), None);
}

#[test]
fn bytes_are_compared_copied_padded_and_mixed() {
    assert!(bytes_equal(&[1, 2], &[1, 2]));
    assert!(!bytes_equal(&[1, 2], &[1, 3]));
    assert!(!bytes_equal(&[1, 2], &[1, 2, 3]));
    assert_eq!(copy_range(&[1, 2, 3, 4], 1, 3), vec![2, 3]);
    assert_eq!(pad(&[7, 8], 4), vec![7, 8, 0, 0]);
    let mut left = vec![0b1100, 0b1010, 5];
    xor_into(&mut left, &[0b1010, 0b1010]);
    assert_eq!(left, vec![0b0110, 0, 5]);
    xor_into(&mut left, &[0b1010, 0b1010, 0, 9, 9]);
    assert_eq!(left, vec![0b1100, 0b1010, 5]);
}

#[test]
fn checksum_is_fnv1a_over_name_and_file() {
    assert_eq!(checksum(b"", b""), 0xcbf2_9ce4_8422_2325);
    assert_eq!(checksum(b"a", b""), 0xaf63_dc4c_8601_ec8c);
    assert_eq!(checksum(b"bar", b"foo"), 0x8594_4171_f739_67e8);
    assert_eq!(checksum(b"foobar", b""), checksum(b"", b"foobar"));
}

#[test]
fn digest_is_sha256_over_name_and_file() {
    let expected = "ba7816bf8f01cfea414140de5dae2223b00361a396177a9cb410ff61f20015ad";
    assert_eq!(bytes_hex(&file_digest(b"c", b"ab")), expected);
    assert_eq!(bytes_hex(&file_digest(b"abc", b"")), expected);
    assert_ne!(file_digest(b"abd", b""), file_digest(b"abc", b""));
}

#[test]
fn compression_is_undone_and_damage_is_noticed() {
    let file = vec![9u8; 4_000];
    let packed = compress_file(&file).expect("compressed");
    assert!(packed.len() < 100);
    assert_eq!(decompress_file(&packed), Some(file));
    assert_eq!(decompress_file(&packed[..packed.len() - 1]), None);
    assert_eq!(decompress_file(&[0xff, 0xff, 0xff]), None);
    assert_eq!(decompress_file(&[]), None);
    assert_eq!(decompress_file(&compress_file(&[]).expect("compressed")), Some(Vec::new()));
}

#[test]
fn control_characters_are_refused_in_names() {
    let mut code = 0u32;
    while code <= 0x10ffff {
        if let Some(c) = char::from_u32(code) {
            let mut name = String::new();
            name.push(c);
            assert_eq!(filename_is_valid(&name), !c.is_control());
        }
        code += 1;
    }
}

#[test]
fn names_are_bounded_in_bytes() {
    assert!(!filename_is_valid(""));
    assert!(filename_is_valid(&"a".repeat(255)));
    assert!(!filename_is_valid(&"a".repeat(256)));
    assert!(filename_is_valid(&"ñ".repeat(127)));
    assert!(!filename_is_valid(&"ñ".repeat(128)));
}

#[test]
fn texts_are_searched_and_compared() {
    assert!(contains_char("a|b", '|'));
    assert!(!contains_char("ab", '|'));
    assert!(same_text("señal", "señal"));
    assert!(!same_text("señal", "senal"));
    assert!(begins_with("METADATA|x", "METADATA|"));
    assert!(!begins_with("METADATA", "METADATA|"));
}

#[test]
fn fields_end_at_bars_up_to_the_limit() {
    assert_eq!(split_fields("a|b||c", 6), vec!["a", "b", "", "c"]);
    assert_eq!(split_fields("a|b||c", 2), vec!["a", "b||c"]);
    assert_eq!(split_fields("a|b", 1), vec!["a|b"]);
    assert_eq!(split_fields("", 4), vec![""]);
    assert_eq!(split_fields("|", 4), vec!["", ""]);
}

#[test]
fn counts_are_read_as_std_reads_them() {
    for text in [
        "0", "7", "007", "+5", "", "+", "++1", "-1", " 1", "1 ", "1a", "18446744073709551615",
        "18446744073709551616", "99999999999999999999999", "000000000000000000000000000012", "٣",
    ] {
        assert_eq!(parse_count(text), text.parse::<usize>().ok(), "{text}");
    }
}

#[test]
fn checksums_are_read_as_std_reads_them() {
    for text in [
        "0", "ff", "FF", "aBcD", "+ff", "", "+", "-1", "0x1", "g", "ffffffffffffffff",
        "10000000000000000", "00000000000000000001", "cbf29ce484222325",
    ] {
        assert_eq!(parse_checksum(text), u64::from_str_radix(text, 16).ok(), "{text}");
    }
    assert_eq!(checksum_text(0xab), "00000000000000ab");
    assert_eq!(parse_checksum(&checksum_text(u64::MAX)), Some(u64::MAX));
    assert_eq!(bytes_hex(&[0, 10, 255]), "000aff");
}

#[test]
fn missing_packets_are_listed_as_ranges() {
    let missing = [0, 1, 2, 3, 8, 10, 11, 12];
    let present: Vec<bool> = (0..14).map(|i| !missing.contains(&i)).collect();
    assert_eq!(missing_list(&present), "0-3,8,10-12");
    assert_eq!(missing_list(&vec![true; 5]), "");
    assert_eq!(missing_list(&vec![false; 5]), "0-4");
    assert_eq!(missing_list(&Vec::new()), "");
    assert_eq!(missing_list(&vec![true, false]), "1");
    assert_eq!(request_packet(0x1f, &present), "REQUEST|000000000000001f|0-3,8,10-12");
    assert_eq!(flag_bytes(&vec![true, false, true]), vec![1, 0, 1]);
}

#[test]
fn generator_is_xorshift() {
    let mut seed = 1u32;
    assert_eq!(next_fountain_random(&mut seed), 270_369);
    assert_eq!(next_fountain_random(&mut seed), 67_634_689);
    assert_eq!(next_fountain_random(&mut seed), 2_647_435_461);
    assert_eq!(seed, 2_647_435_461);
}

#[test]
fn masks_are_drawn_from_the_generator() {
    assert_eq!(fountain_mask(0, 32, 0), 0x56fc_cd1f);
    assert_eq!(fountain_mask(0xdead_beef, 32, 1), 0xcb4d_3d9c);
    assert_eq!(fountain_mask(1, 8, 3), 0x19);
    // The mixed seed is zero here and one is used in its place.
    assert_eq!(fountain_mask(0x61c8_8647, 5, 1), 0x1f);
    for seed in 0..2_000u32 {
        assert_eq!(fountain_mask(seed, 1, 0), 1);
        let mask = fountain_mask(seed, 5, 7);
        assert!(mask != 0 && mask < 32);
    }
}

#[test]
fn chunks_are_counted_and_cut() {
    assert_eq!(count_chunks(0, 400), 1);
    assert_eq!(count_chunks(1, 400), 1);
    assert_eq!(count_chunks(400, 400), 1);
    assert_eq!(count_chunks(401, 400), 2);
    assert_eq!(piece_len(401, 400, 0), 400);
    assert_eq!(piece_len(401, 400, 1), 1);
    assert_eq!(piece_len(401, 400, 2), 0);
    assert_eq!(cut(&[1, 2, 3, 4, 5], 2, 0), vec![1, 2]);
    assert_eq!(cut(&[1, 2, 3, 4, 5], 2, 2), vec![5]);
    assert_eq!(cut(&[1, 2, 3, 4, 5], 2, 3), Vec::<u8>::new());
}

#[test]
fn the_smaller_form_is_sent() {
    assert_eq!(choose_codec(vec![1], &[5, 6]), (1, vec![1]));
    assert_eq!(choose_codec(vec![1, 2], &[5, 6]), (0, vec![5, 6]));
    assert_eq!(choose_codec(vec![1, 2, 3], &[5, 6]), (0, vec![5, 6]));
    let even = vec![3u8; 2_000];
    let (codec, encoded) = binary_compress(&even).expect("encoded");
    assert_eq!(codec, 1);
    assert_eq!(unpack(codec, encoded), Some(even));
    let odd = noise(2_000, 5);
    assert_eq!(binary_compress(&odd), Some((0, odd.clone())));
    assert_eq!(unpack(0, odd.clone()), Some(odd));
}

#[test]
fn only_the_announced_file_is_restored() {
    let file = b"contenido".to_vec();
    let digest = file_digest(&file, b"n");
    let sum = checksum(&file, b"n");
    assert!(file_matches(&file, &digest, "n", 9, sum, &digest));
    assert!(!file_matches(&file, &digest, "n", 8, sum, &digest));
    assert!(!file_matches(&file, &digest, "m", 9, sum, &digest));
    assert!(!file_matches(&file, &[0; 32], "n", 9, sum, &digest));
    assert_eq!(restore(file.clone(), 0, "n", 9, sum, &digest), Some(file.clone()));
    assert_eq!(restore(file.clone(), 1, "n", 9, sum, &digest), None);
    assert_eq!(restore(file.clone(), 0, "n", 9, sum ^ 1, &digest), None);
    assert_eq!(restore(file.clone(), 0, "n", 9, sum, &[7; 32]), None);
    let packed = compress_file(&file).expect("compressed");
    assert_eq!(restore(packed, 1, "n", 9, sum, &digest), Some(file));
}

#[test]
fn text_packets_carry_base64_of_the_compressed_file() {
    let file = noise(1_000, 1);
    let encoded = STANDARD.encode(compress_file(&file).expect("compressed"));
    let packets = compress_and_split_with_chunk_size(file.clone(), "a.bin".to_string(), 300);
    let sum = checksum(&file, b"a.bin");
    assert_eq!(packets.len(), 1 + encoded.len().div_ceil(300));
    assert_eq!(
        packets[0],
        format!("METADATA|a.bin|{}|{sum:016x}|1000", packets.len() - 1)
    );
    for (index, packet) in packets.iter().skip(1).enumerate() {
        let end = encoded.len().min(300 * index + 300);
        assert_eq!(*packet, format!("DATA|{sum:016x}|{index}|{}", &encoded[300 * index..end]));
    }
    assert_eq!(
        compress_and_split(file.clone(), "a.bin".to_string()),
        compress_and_split_with_chunk_size(file.clone(), "a.bin".to_string(), 600)
    );
    assert_eq!(
        prepare_file(&file, "a.bin".to_string()),
        compress_and_split(file, "a.bin".to_string())
    );
}

#[test]
fn text_packets_for_a_given_encoding() {
    let encoded = "x".repeat(601);
    let packets = text_packets_for(b"abc", "n".to_string(), &encoded, 300);
    let sum = checksum(b"abc", b"n");
    assert_eq!(packets.len(), 4);
    assert_eq!(packets[0], format!("METADATA|n|3|{sum:016x}|3"));
    assert_eq!(packets[3], format!("DATA|{sum:016x}|2|x"));
    assert_eq!(text_packets_for(b"", "n".to_string(), "", 300).len(), 1);
}

#[test]
fn text_sender_refuses() {
    let file = vec![1u8; 10];
    let refused = |name: &str, size: u32| {
        compress_and_split_with_chunk_size(file.clone(), name.to_string(), size).is_empty()
    };
    assert!(!refused("n", 300));
    assert!(!refused("n", 1_500));
    assert!(refused("n", 299));
    assert!(refused("n", 1_501));
    assert!(refused("", 600));
    assert!(refused("a|b", 600));
    assert!(refused("a\nb", 600));
    assert!(refused(&"a".repeat(256), 600));
    let limit = 1_536 * 1024;
    assert!(!compress_and_split(vec![0; limit], "n".to_string()).is_empty());
    assert!(compress_and_split(vec![0; limit + 1], "n".to_string()).is_empty());
}

#[test]
fn text_headers_are_read() {
    let header = parse_header("METADATA|foto ñ.bin|12|00000000000000ff|345").expect("header");
    assert_eq!(header.filename, "foto ñ.bin");
    assert_eq!(header.total_packets, 12);
    assert_eq!(header.checksum, 255);
    assert_eq!(header.file_size, 345);
    for text in [
        "METADATA|n|12|ff",
        "METADATA|n|12|ff|345|6",
        "METADAT|n|12|ff|345",
        "METADATA||12|ff|345",
        "METADATA|a\tb|12|ff|345",
        "METADATA|n|0|ff|345",
        "METADATA|n|10001|ff|345",
        "METADATA|n|x|ff|345",
        "METADATA|n|12|fg|345",
        "METADATA|n|12|ff|1572865",
        "METADATA|n|12|ff|-1",
    ] {
        assert!(parse_header(text).is_none(), "{text}");
    }
    assert!(parse_header("METADATA|n|10000|ff|1572864").is_some());
}

#[test]
fn text_data_is_read() {
    let data = parse_data("DATA|ff|+3|ab|c").expect("data");
    assert_eq!(data.checksum, 255);
    assert_eq!(data.index, 3);
    assert_eq!(data.chunk, "ab|c");
    for text in ["DATA|ff|3", "DATA|ff|3|", "DAT|ff|3|a", "DATA|x|3|a", "DATA|ff|x|a", ""] {
        assert!(parse_data(text).is_none(), "{text}");
    }
    let fits = format!("DATA|ff|0|{}", "a".repeat(1_500));
    let too_long = format!("DATA|ff|0|{}", "a".repeat(1_501));
    assert!(parse_data(&fits).is_some());
    assert!(parse_data(&too_long).is_none());
}

#[test]
fn binary_header_layout() {
    let file = noise(5_000, 2);
    let digest = file_digest(&file, b"x.bin");
    let header = binary_header_for(&file, "x.bin", 0, &file, digest, 400, 8);
    assert_eq!(header.data_packets, 13);
    let packet = binary_header_packet(&header);
    assert_eq!(packet.len(), BINARY_HEADER_FIXED_BYTES + 5);
    assert_eq!(&packet[..7], &[b'T', b'N', b'2', 0, 0, 8, 0]);
    assert_eq!(read_u64(&packet, 7), Some(checksum(&file, b"x.bin")));
    assert_eq!(&packet[15..47], &digest[..]);
    assert_eq!(read_u32(&packet, 47), Some(5_000));
    assert_eq!(read_u32(&packet, 51), Some(5_000));
    assert_eq!(read_u16(&packet, 55), Some(400));
    assert_eq!(read_u32(&packet, 57), Some(13));
    assert_eq!(read_u16(&packet, 61), Some(5));
    assert_eq!(&packet[63..], b"x.bin");
    let packets = binary_packets_for(&header, &file);
    assert_eq!(packets.len(), 1 + 13 + 2);
    assert_eq!(packets[0], packet);
    assert_eq!(packets[13].len(), 16 + 200);
    assert_eq!(packets[15].len(), 16 + 400);
}

#[test]
fn binary_headers_are_read() {
    let packets = build_binary_packets(&noise(5_000, 3), "señal.bin", 400, 8).expect("packets");
    let good = packets[0].clone();
    let header = parse_binary_header(&good).expect("header");
    assert_eq!(header.filename, "señal.bin");
    assert_eq!(header.fec_group_size, 8);
    assert_eq!(header.codec, 0);
    assert_eq!(header.chunk_size, 400);
    assert_eq!(header.data_packets, 13);
    let changed = |at: usize, value: u8| {
        let mut packet = good.clone();
        packet[at] = value;
        parse_binary_header(&packet).is_none()
    };
    assert!(changed(0, b'X'));
    assert!(changed(2, b'F'));
    assert!(changed(3, 1));
    assert!(changed(4, 2));
    assert!(changed(5, 4));
    assert!(!changed(6, 9));
    assert!(changed(47, 1));
    assert!(changed(51, 1));
    assert!(changed(56, 0x8f));
    assert!(changed(60, 14));
    assert!(changed(62, 200));
    assert!(changed(62, 0));
    assert!(changed(65, 0xff));
    assert!(changed(63, 7));
    assert!(parse_binary_header(&good[..62]).is_none());
    assert!(parse_binary_header(&good[..good.len() - 1]).is_none());
    let mut longer = good.clone();
    longer.push(0);
    assert!(parse_binary_header(&longer).is_some());
}

#[test]
fn binary_sender_refuses() {
    let file = vec![1u8; 10];
    let sent = |name: &str, size: u32, group: u32| {
        prepare_binary_packets(file.clone(), name.to_string(), size, group).len()
    };
    assert_eq!(sent("n", 400, 0), 2);
    assert_eq!(sent("n", 1_800, 8), 3);
    assert_eq!(sent("a|b", 600, 0), 2);
    assert_eq!(sent("n", 399, 0), 0);
    assert_eq!(sent("n", 1_801, 0), 0);
    assert_eq!(sent("n", 600, 4), 0);
    assert_eq!(sent("", 600, 0), 0);
    assert_eq!(sent("a\u{7f}", 600, 0), 0);
    assert_eq!(sent(&"a".repeat(256), 600, 0), 0);
    let limit = 1_536 * 1024;
    assert!(build_binary_packets(&vec![0; limit], "n", 600, 8).is_some());
    assert!(build_binary_packets(&vec![0; limit + 1], "n", 600, 8).is_none());
    assert_eq!(build_binary_packets(&[], "n", 600, 8).expect("packets").len(), 3);
}

#[test]
fn windows_and_repairs_are_counted() {
    assert_eq!(width_of_window(70, 0), 32);
    assert_eq!(width_of_window(70, 2), 6);
    assert_eq!(width_of_window(70, 3), 0);
    assert_eq!(repairs_for_width(32, 0), 0);
    assert_eq!(repairs_for_width(32, 10), 4);
    assert_eq!(repairs_for_width(32, 50), 16);
    assert_eq!(repairs_for_width(1, 1), 1);
    assert_eq!(count_repairs(70, 10), 4 + 4 + 1);
    assert_eq!(count_repairs(70, 0), 0);
}

#[test]
fn fountain_header_layout() {
    let file = noise(30_000, 4);
    let digest = file_digest(&file, b"y");
    let header = fountain_header_for(&file, "y", 0, &file, digest, 400, 30);
    assert_eq!(header.data_packets, 75);
    assert_eq!(header.repair_packets, 10 + 10 + 4);
    let packet = fountain_header_packet(&header);
    assert_eq!(packet.len(), FOUNTAIN_HEADER_FIXED_BYTES + 1);
    assert_eq!(&packet[..7], &[b'T', b'N', b'F', 0, 0, 32, 0]);
    assert_eq!(read_u64(&packet, 7), Some(checksum(&file, b"y")));
    assert_eq!(&packet[15..47], &digest[..]);
    assert_eq!(read_u32(&packet, 47), Some(30_000));
    assert_eq!(read_u32(&packet, 51), Some(30_000));
    assert_eq!(read_u16(&packet, 55), Some(400));
    assert_eq!(read_u32(&packet, 57), Some(75));
    assert_eq!(packet[61], 30);
    assert_eq!(read_u32(&packet, 62), Some(24));
    assert_eq!(read_u16(&packet, 66), Some(1));
    assert_eq!(packet[68], b'y');
    let packets = fountain_packets_for(&header, &file);
    assert_eq!(packets.len(), 1 + 75 + 24);
    assert_eq!(packets[0], packet);
    let repair = &packets[1 + 75 + 20];
    assert_eq!(&repair[..4], &[b'T', b'N', b'F', 2]);
    assert_eq!(read_u16(repair, 12), Some(2));
    let sum = checksum(&file, b"y");
    let mask = fountain_mask(sum as u32 ^ 2, 11, 0);
    assert_eq!(read_u32(repair, 14), Some(mask as usize));
    let mut mixed = vec![0u8; 400];
    for local in 0..11 {
        if mask & (1 << local) != 0 {
            xor_into(&mut mixed, &packets[1 + 64 + local][16..]);
        }
    }
    assert_eq!(&repair[18..], &mixed[..]);
}

#[test]
fn fountain_headers_are_read() {
    let packets = build_fountain_packets(&noise(30_000, 6), "z.bin", 400, 20).expect("packets");
    let good = packets[0].clone();
    let header = parse_fountain_header(&good).expect("header");
    assert_eq!(header.filename, "z.bin");
    assert_eq!(header.overhead_percent, 20);
    assert_eq!(header.repair_packets, 7 + 7 + 3);
    let changed = |at: usize, value: u8| {
        let mut packet = good.clone();
        packet[at] = value;
        parse_fountain_header(&packet).is_none()
    };
    assert!(changed(2, b'2'));
    assert!(changed(3, 2));
    assert!(changed(4, 2));
    assert!(changed(5, 31));
    assert!(changed(47, 1));
    assert!(changed(51, 1));
    assert!(changed(56, 0));
    assert!(changed(60, 76));
    assert!(changed(61, 51));
    assert!(changed(62, 1));
    assert!(changed(67, 6));
    assert!(changed(68, 0x80));
    assert!(changed(68, 0x1f));
    assert!(!changed(61, 50));
    assert!(parse_fountain_header(&good[..67]).is_none());
}

#[test]
fn fountain_sender_refuses() {
    let file = vec![1u8; 10];
    let sent = |name: &str, size: u32, overhead: u32| {
        prepare_fountain_packets(file.clone(), name.to_string(), size, overhead).len()
    };
    assert_eq!(sent("n", 400, 0), 2);
    assert_eq!(sent("n", 400, 50), 3);
    assert_eq!(sent("n", 400, 51), 0);
    assert_eq!(sent("n", 399, 10), 0);
    assert_eq!(sent("n", 1_801, 10), 0);
    assert_eq!(sent("", 600, 10), 0);
    assert_eq!(sent("\u{85}", 600, 10), 0);
    let limit = 1_536 * 1024;
    assert!(build_fountain_packets(&vec![0; limit], "n", 600, 10).is_some());
    assert!(build_fountain_packets(&vec![0; limit + 1], "n", 600, 10).is_none());
}

#[test]
fn a_window_solves_its_chunks() {
    let chunks = [vec![1u8, 2], vec![4, 8], vec![16, 32]];
    let mix = |mask: u32| {
        let mut payload = vec![0u8; 2];
        for (local, chunk) in chunks.iter().enumerate() {
            if mask & (1 << local) != 0 {
                xor_into(&mut payload, chunk);
            }
        }
        FountainEquation { mask, payload }
    };
    let mut window = FountainWindow::new(3);
    assert!(window.add_equation(mix(0b111)));
    assert_eq!(window.solve(), 0);
    assert!(window.add_equation(mix(0b110)));
    assert_eq!(window.solve(), 0);
    assert!(!window.add_equation(mix(0b001)));
    assert!(window.add_equation(mix(0b010)));
    assert_eq!(window.solve(), 3);
    assert_eq!(window.solve(), 0);
    for (local, chunk) in chunks.iter().enumerate() {
        assert!(window.is_known(local));
        assert_eq!(window.chunks[local].as_ref(), Some(chunk));
    }
    assert!(!window.is_known(3));
    assert!(!window.add_equation(mix(0b101)));
}

#[test]
fn a_window_takes_in_chunks_as_they_are() {
    let mut window = FountainWindow::new(3);
    assert!(window.add_equation(FountainEquation { mask: 0b111, payload: vec![7] }));
    window.learn(2, vec![4]);
    assert_eq!(window.chunks[2], Some(vec![4]));
    assert!(!window.is_known(0));
    window.learn(2, vec![9]);
    assert_eq!(window.chunks[2], Some(vec![4]));
    assert_eq!(window.solve(), 0);
    window.learn(1, vec![2]);
    assert_eq!(window.solve(), 1);
    assert_eq!(window.chunks, vec![Some(vec![1]), Some(vec![2]), Some(vec![4])]);
}

#[test]
fn an_equation_is_new_where_no_sum_of_masks_gives_it() {
    // Masks of four chunks, the payload of each its own bits.
    for choice in 0u32..4096 {
        let masks = [choice & 15, (choice >> 4) & 15, (choice >> 8) & 15];
        let mut window = FountainWindow::new(4);
        let mut sums = vec![0u32];
        for mask in masks {
            let fresh = !sums.contains(&mask);
            let pivots = window.basis.iter().filter(|kept| kept.is_some()).count();
            let equation = FountainEquation { mask, payload: vec![mask as u8] };
            assert_eq!(window.add_equation(equation), fresh);
            let more = window.basis.iter().filter(|kept| kept.is_some()).count();
            assert_eq!(more, pivots + usize::from(fresh));
            if fresh {
                let grown: Vec<u32> = sums.iter().map(|sum| sum ^ mask).collect();
                sums.extend(grown);
            }
            for (pivot, kept) in window.basis.iter().enumerate() {
                if let Some(kept) = kept {
                    assert_eq!(kept.mask.trailing_zeros() as usize, pivot);
                    assert!(sums.contains(&kept.mask));
                    assert_eq!(kept.payload, vec![kept.mask as u8]);
                }
            }
        }
        assert_eq!(window.chunks, vec![None, None, None, None]);
    }
}

#[test]
fn streams_keep_to_their_limit() {
    let bytes = noise(200_000, 7);
    for size in [0, 1, 31, 32, 33, 48, 31_744, 31_745, 32_768, 65_536, 200_000] {
        for data in [bytes[..size].to_vec(), vec![0u8; size]] {
            let packed = compress_file(&data).expect("compressed");
            assert!(!packed.is_empty());
            assert!(packed.len() <= (size / MIN_BLOCK_DATA + 1) * MAX_BLOCK_BYTES);
            assert_eq!(decompress_file(&packed), Some(data));
        }
    }
}

#[test]
fn text_packets_can_be_counted() {
    let bytes = noise(40_000, 9);
    for size in [0, 1, 224, 225, 226, 5_000, 40_000] {
        for chunk in [300u32, 600, 1_500] {
            let data = bytes[..size].to_vec();
            let packed = compress_file(&data).expect("compressed").len();
            let characters = (packed + 2) / 3 * 4;
            let packets = compress_and_split_with_chunk_size(data, "n".to_string(), chunk);
            assert_eq!(packets.len(), 1 + characters.div_ceil(chunk as usize));
        }
    }
}
