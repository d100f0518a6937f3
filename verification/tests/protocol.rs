use raptorqr_host::protocol::{crc32c, parse_packet, ParseError, MAGIC_BYTE};

#[test]
fn crc32c_known_values() {
    // Standard CRC32C test vectors.
    assert_eq!(crc32c(b""), 0);
    assert_eq!(crc32c(b"123456789"), 0xe306_9283);
    assert_eq!(crc32c(b"The quick brown fox jumps over the lazy dog"), 0x2262_0404);
}

#[test]
fn packet_roundtrip_against_typescript_layout() {
    // Build the exact byte layout the TS sender produces for
    // generationIndex=0, totalGenerations=24, symbolIndex=31,
    // isText=false, isLastGeneration=true, compressed=false,
    // dataLength=1234, payload=[1,2,3,4,5].
    let mut word = 0u32;
    word |= 0 & 0xfff;
    word |= (24 & 0xfff) << 12;
    word |= (31 & 0x1f) << 24;
    word |= 0 << 29;
    word |= 1 << 30;
    word |= 0 << 31;
    let mut packet = Vec::new();
    packet.push(MAGIC_BYTE);
    packet.extend_from_slice(&word.to_le_bytes());
    let dl: u32 = 1234;
    packet.extend_from_slice(&[
        (dl & 0xff) as u8,
        ((dl >> 8) & 0xff) as u8,
        ((dl >> 16) & 0xff) as u8,
    ]);
    packet.extend_from_slice(&[1, 2, 3, 4, 5]);
    let crc = crc32c(&packet);
    packet.extend_from_slice(&crc.to_le_bytes());

    let parsed = parse_packet(&packet).unwrap();
    assert_eq!(parsed.header.generation_index, 0);
    assert_eq!(parsed.header.total_generations, 24);
    assert_eq!(parsed.header.symbol_index, 31);
    assert!(!parsed.header.is_text);
    assert!(parsed.header.is_last_generation);
    assert!(!parsed.header.compressed);
    assert_eq!(parsed.header.data_length, 1234);
    assert_eq!(parsed.payload, vec![1, 2, 3, 4, 5]);
}

#[test]
fn packet_rejects_corruption() {
    let mut packet = Vec::new();
    packet.push(MAGIC_BYTE);
    packet.extend_from_slice(&0u32.to_le_bytes());
    packet.extend_from_slice(&[0, 0, 0]);
    packet.extend_from_slice(&[9, 9]);
    let crc = crc32c(&packet);
    packet.extend_from_slice(&crc.to_le_bytes());
    assert!(parse_packet(&packet).is_ok());

    packet[8] ^= 0xff; // flip a payload bit
    assert_eq!(parse_packet(&packet), Err(ParseError::CrcMismatch));
    packet[8] ^= 0xff;

    packet[0] = 0x00;
    assert_eq!(parse_packet(&packet), Err(ParseError::BadMagic));
}

/// Builds a packet the way the sender does.
fn build_packet(word: u32, data_length: u32, payload: &[u8]) -> Vec<u8> {
    let mut packet = vec![MAGIC_BYTE];
    packet.extend_from_slice(&word.to_le_bytes());
    packet.extend_from_slice(&data_length.to_le_bytes()[..3]);
    packet.extend_from_slice(payload);
    let crc = crc32c(&packet);
    packet.extend_from_slice(&crc.to_le_bytes());
    packet
}

#[test]
fn packet_too_short_is_rejected() {
    assert_eq!(parse_packet(&[]), Err(ParseError::TooShort));
    assert_eq!(parse_packet(&[MAGIC_BYTE; 11]), Err(ParseError::TooShort));
    // Exactly header + CRC with an empty payload parses.
    let p = build_packet(0, 0, &[]);
    assert_eq!(p.len(), 12);
    let parsed = parse_packet(&p).unwrap();
    assert!(parsed.payload.is_empty());
}

#[test]
fn length_is_checked_before_magic_and_crc() {
    // A short buffer with a wrong magic still reports TooShort.
    assert_eq!(parse_packet(&[0u8; 5]), Err(ParseError::TooShort));
    // Wrong magic is reported before a CRC mismatch.
    let mut p = build_packet(0, 0, &[1, 2, 3]);
    p[0] = 0x52;
    let n = p.len();
    p[n - 1] ^= 1;
    assert_eq!(parse_packet(&p), Err(ParseError::BadMagic));
}

#[test]
fn header_fields_are_unpacked_from_all_bits() {
    // Every field at its maximum, plus all three flags.
    let word = 0xfff | (0xfff << 12) | (0x1f << 24) | (1 << 29) | (1 << 30) | (1 << 31);
    let p = build_packet(word, 0xff_ffff, &[7; 20]);
    let h = parse_packet(&p).unwrap().header;
    assert_eq!(h.generation_index, 4095);
    assert_eq!(h.total_generations, 4095);
    assert_eq!(h.symbol_index, 31);
    assert!(h.is_text && h.is_last_generation && h.compressed);
    assert_eq!(h.data_length, 0xff_ffff);

    let word = 5 | (7 << 12) | (3 << 24) | (1 << 29);
    let p = build_packet(word, 70_000, &[1]);
    let h = parse_packet(&p).unwrap().header;
    assert_eq!((h.generation_index, h.total_generations, h.symbol_index), (5, 7, 3));
    assert!(h.is_text && !h.is_last_generation && !h.compressed);
    assert_eq!(h.data_length, 70_000);
}

#[test]
fn stored_crc_is_little_endian() {
    let mut p = build_packet(0, 1, &[1, 2, 3, 4]);
    let n = p.len();
    // Swapping the CRC byte order breaks the check.
    p[n - 4..].reverse();
    assert_eq!(parse_packet(&p), Err(ParseError::CrcMismatch));
}

#[test]
fn crc32c_single_bytes() {
    // CRC32C of a single zero byte and of 32 zero bytes (RFC 3720 B.4).
    assert_eq!(crc32c(&[0u8]), 0x527d_5351);
    assert_eq!(crc32c(&[0u8; 32]), 0x8a91_36aa);
    assert_eq!(crc32c(&[0xffu8; 32]), 0x62a8_ab43);
}
