use std::io::Write;

use raptorq::{Encoder, ObjectTransmissionInformation};
use raptorqr_host::fec::{block_geometry, symbol_id, unwrap_payload, RaptorQSession};
use raptorqr_host::protocol::{crc32c, MAGIC_BYTE};
use raptorqr_host::transfer::{
    decode_packets, decode_packets_counting_repeats, FeedResult, TransferTracker,
};

/// Transport packets the sender emits for an already preprocessed payload,
/// with `symbol_size`-byte symbols and `repair` repair symbols per block.
fn sender_packets(data: &[u8], symbol_size: u16, is_text: bool, compressed: bool, repair: u32) -> Vec<Vec<u8>> {
    let blocks = block_geometry(data.len() as u64, symbol_size as u64);
    let config = ObjectTransmissionInformation::new(data.len() as u64, symbol_size, blocks, 1, 1);
    let encoder = Encoder::new(data, config);
    let mut word: u32 = 31 << 24;
    if is_text {
        word |= 1 << 29;
    }
    word |= 1 << 30;
    if compressed {
        word |= 1 << 31;
    }
    encoder
        .get_encoded_packets(repair)
        .into_iter()
        .map(|p| {
            let mut packet = vec![MAGIC_BYTE];
            packet.extend_from_slice(&word.to_le_bytes());
            packet.extend_from_slice(&(data.len() as u32).to_le_bytes()[..3]);
            packet.extend_from_slice(&p.serialize());
            let crc = crc32c(&packet);
            packet.extend_from_slice(&crc.to_le_bytes());
            packet
        })
        .collect()
}

fn deflate_raw(data: &[u8]) -> Vec<u8> {
    let mut e = flate2::write::DeflateEncoder::new(Vec::new(), flate2::Compression::default());
    e.write_all(data).unwrap();
    e.finish().unwrap()
}

fn preamble(name: &str, mime: &str, body: &[u8]) -> Vec<u8> {
    let mut out = vec![name.len() as u8];
    out.extend_from_slice(name.as_bytes());
    out.push(mime.len() as u8);
    out.extend_from_slice(mime.as_bytes());
    out.extend_from_slice(body);
    out
}

#[test]
fn text_transfer_decodes() {
    let text = b"hello from the guest VM, over animated QR codes";
    let packets = sender_packets(text, 16, true, false, 2);
    let t = decode_packets(&packets).expect("transfer completes");
    assert!(t.is_text);
    assert_eq!(t.body, text.to_vec());
    // In text mode the "filename" is the text itself.
    assert_eq!(t.filename, String::from_utf8_lossy(text));
}

#[test]
fn compressed_file_transfer_decodes() {
    let content: Vec<u8> = (0..5000u32).map(|i| (i % 251) as u8).collect();
    let data = deflate_raw(&preamble("report.bin", "application/octet-stream", &content));
    let packets = sender_packets(&data, 100, false, true, 5);
    let t = decode_packets(&packets).expect("transfer completes");
    assert!(!t.is_text);
    assert_eq!(t.filename, "report.bin");
    assert_eq!(t.body, content);
}

#[test]
fn repair_symbols_replace_lost_ones() {
    let content: Vec<u8> = (0..3000u32).map(|i| (i * 7 % 256) as u8).collect();
    let data = preamble("a.dat", "", &content);
    let packets = sender_packets(&data, 64, false, false, 30);
    // Drop every fourth packet; the repair symbols make up for them.
    let kept: Vec<Vec<u8>> = packets
        .iter()
        .enumerate()
        .filter(|(i, _)| i % 4 != 1)
        .map(|(_, p)| p.clone())
        .collect();
    let t = decode_packets(&kept).expect("transfer completes");
    assert_eq!(t.filename, "a.dat");
    assert_eq!(t.body, content);
}

#[test]
fn empty_filename_gets_a_default() {
    let data = preamble("", "", b"xyz");
    let packets = sender_packets(&data, 8, false, false, 1);
    let t = decode_packets(&packets).unwrap();
    assert_eq!(t.filename, "raptorqr-file.bin");
    assert_eq!(t.body, b"xyz".to_vec());
}

#[test]
fn looping_stream_is_reported_once() {
    let text = b"looping";
    let once = sender_packets(text, 4, true, false, 0);
    let mut twice = once.clone();
    twice.extend(once.iter().cloned());
    let (first, repeats) = decode_packets_counting_repeats(&twice);
    assert_eq!(first.expect("completes").body, text.to_vec());
    // The second pass comes round as the transfer already received: once.
    assert_eq!(repeats, 1);
    // A stream that keeps looping without a pause stays one repeat.
    let mut thrice = twice.clone();
    thrice.extend(once.iter().cloned());
    assert_eq!(decode_packets_counting_repeats(&thrice).1, 1);
    // A single pass has no repeat.
    assert_eq!(decode_packets_counting_repeats(&once).1, 0);
}

#[test]
fn feed_at_reports_duplicates_while_stream_loops() {
    let text = b"a short text";
    let packets = sender_packets(text, 4, true, false, 0);
    let mut tracker = TransferTracker::new();
    let mut completed = 0;
    for p in &packets {
        if let FeedResult::Completed(_) = tracker.feed_at(p, 1_000) {
            completed += 1;
        }
    }
    assert_eq!(completed, 1);
    // Within 5 s of the last packet the same stream is a duplicate.
    assert!(matches!(tracker.feed_at(&packets[0], 4_000_000_000), FeedResult::Duplicate));
    assert!(tracker.progress_status().unwrap().complete.is_some());
    // After more than 5 s of silence the stream starts a new session, and
    // the identical content is still reported as a duplicate on completion.
    assert!(matches!(tracker.feed_at(&packets[0], 20_000_000_000), FeedResult::Progress));
    assert_eq!(tracker.session_seq(), 2);
    let mut last = None;
    for p in &packets[1..] {
        last = Some(tracker.feed_at(p, 20_000_000_001));
    }
    assert!(matches!(last, Some(FeedResult::Duplicate)));
}

#[test]
fn invalid_bytes_are_ignored() {
    let mut tracker = TransferTracker::new();
    assert!(matches!(tracker.feed(b"not a packet"), FeedResult::Ignored));
    // A valid packet of another symbol index.
    let mut packet = vec![MAGIC_BYTE];
    packet.extend_from_slice(&(5u32 << 24).to_le_bytes());
    packet.extend_from_slice(&[10, 0, 0]);
    packet.extend_from_slice(&[0, 0, 0, 0, 1, 2]);
    let crc = crc32c(&packet);
    packet.extend_from_slice(&crc.to_le_bytes());
    assert!(matches!(tracker.feed(&packet), FeedResult::Ignored));
    assert!(tracker.session_key().is_none());
    assert!(tracker.progress_status().is_none());
}

#[test]
fn session_tracks_progress_and_received_ids() {
    let data: Vec<u8> = (0..100u8).collect();
    let packets = sender_packets(&data, 10, false, false, 0);
    let mut tracker = TransferTracker::new();
    assert!(matches!(tracker.feed(&packets[3]), FeedResult::Progress));
    assert!(matches!(tracker.feed(&packets[1]), FeedResult::Progress));
    // The same symbol again is accepted but counted once.
    assert!(matches!(tracker.feed(&packets[1]), FeedResult::Progress));
    let key = tracker.session_key().unwrap();
    assert_eq!(key.data_length, 100);
    assert_eq!(key.transport_payload_size, 14);
    assert_eq!(tracker.received_esis(), vec![(0, 1), (0, 3)]);
    let status = tracker.progress_status().unwrap();
    assert_eq!((status.received, status.total), (2, 10));
    assert_eq!(status.blocks, vec![(0, 2, 10)]);
    tracker.reset();
    assert!(tracker.progress_status().is_none());
}

#[test]
fn session_dedupes_and_rejects_bad_payloads() {
    let mut s = RaptorQSession::new(100, 14);
    assert_eq!(s.total_source_symbols, 10);
    assert_eq!(s.per_block_progress(), vec![(0, 0, 10)]);
    let mut p = vec![0u8, 0, 0, 2];
    p.extend_from_slice(&[0; 10]);
    assert!(s.push(&p).is_none());
    assert!(s.push(&p).is_none());
    assert_eq!(s.per_block_progress(), vec![(0, 1, 10)]);
    assert_eq!(s.progress_counts(), (1, 10));
    // Wrong size, and a block that does not exist, are not counted.
    assert!(s.push(&p[..13]).is_none());
    let mut q = p.clone();
    q[0] = 1;
    assert!(s.push(&q).is_none());
    // A repair symbol (ESI >= K) is recorded but not counted as source.
    let mut r = p.clone();
    r[3] = 40;
    assert!(s.push(&r).is_none());
    assert_eq!(s.received_esis(), vec![(0, 2), (0, 40)]);
    assert_eq!(s.progress_counts(), (1, 10));
    assert!(!s.done);
    assert!(!s.is_done());
    assert_eq!(s.source_symbol_count(), 10);
}

#[test]
fn block_geometry_partitions_large_transfers() {
    assert_eq!(block_geometry(0, 0), 1);
    assert_eq!(block_geometry(1, 1000), 1);
    assert_eq!(block_geometry(56_403, 1), 1);
    assert_eq!(block_geometry(56_404, 1), 2);
    // 12 MB with 1000-byte symbols: 12000 symbols, one block.
    assert_eq!(block_geometry(12_000_000, 1000), 1);
    // 12 MB with 100-byte symbols: 120000 symbols in three blocks.
    assert_eq!(block_geometry(12_000_000, 100), 3);
    let s = RaptorQSession::new(12_000_000, 104);
    let blocks = s.per_block_progress();
    assert_eq!(blocks.len(), 3);
    let total: u32 = blocks.iter().map(|b| b.2).sum();
    assert_eq!(total, 120_000);
    assert_eq!(blocks, vec![(0, 0, 40_000), (1, 0, 40_000), (2, 0, 40_000)]);
    let s = RaptorQSession::new(120_001, 5);
    let ks: Vec<u32> = s.per_block_progress().iter().map(|b| b.2).collect();
    assert_eq!(ks, vec![40_001, 40_000, 40_000]);
}

#[test]
fn unwrap_payload_modes() {
    let (name, body) = unwrap_payload(preamble("n.txt", "text/plain", b"body"), false, false);
    assert_eq!(name, "n.txt");
    assert_eq!(body, b"body".to_vec());
    // Lengths are clipped to the bytes present.
    let (name, body) = unwrap_payload(vec![9, b'a', b'b'], false, false);
    assert_eq!(name, "ab");
    assert!(body.is_empty());
    let (name, body) = unwrap_payload(vec![1, b'a', 200, b'm'], false, false);
    assert_eq!(name, "a");
    assert!(body.is_empty());
    let (name, body) = unwrap_payload(Vec::new(), false, false);
    assert!(name.is_empty() && body.is_empty());
    // Text mode keeps every byte, and reads invalid UTF-8 lossily.
    let (text, body) = unwrap_payload(vec![b'h', 0xff, b'i'], false, true);
    assert_eq!(text, "h\u{fffd}i");
    assert_eq!(body, vec![b'h', 0xff, b'i']);
    // Compressed payloads are inflated first.
    let packed = deflate_raw(&preamble("z", "", b"zzzzzzzzzzzzzzzzzzzzzzzzzz"));
    assert_ne!(packed, preamble("z", "", b"zzzzzzzzzzzzzzzzzzzzzzzzzz"));
    let (name, body) = unwrap_payload(packed, true, false);
    assert_eq!(name, "z");
    assert_eq!(body, b"zzzzzzzzzzzzzzzzzzzzzzzzzz".to_vec());
}

#[test]
fn mark_saved_is_reported_in_status() {
    let packets = sender_packets(b"abc", 4, true, false, 0);
    let mut tracker = TransferTracker::default();
    let mut done = false;
    for p in &packets {
        if let FeedResult::Completed(_) = tracker.feed(p) {
            done = true;
        }
    }
    assert!(done);
    // Until it is saved, the completed transfer has an empty path.
    let before = tracker.progress_status().unwrap().complete.unwrap();
    assert_eq!(before.1, std::path::PathBuf::new());
    assert_eq!(before.2, 0);
    tracker.mark_saved(std::path::PathBuf::from("/tmp/abc.txt"), 3);
    let status = tracker.progress_status().unwrap();
    assert_eq!((status.received, status.total), (1, 1));
    let (name, path, bytes) = status.complete.unwrap();
    assert_eq!(name, "abc");
    assert_eq!(path, std::path::PathBuf::from("/tmp/abc.txt"));
    assert_eq!(bytes, 3);
}

#[test]
fn symbol_ids_are_block_and_24_bit_esi() {
    assert_eq!(symbol_id(&[2, 0x01, 0x02, 0x03, 9, 9]), (2, 0x010203));
    assert_eq!(symbol_id(&[0, 0xff, 0xff, 0xff]), (0, 0xffffff));
    assert_eq!(symbol_id(&[7, 1, 2]), (0, 0));
    assert_eq!(symbol_id(&[]), (0, 0));
}

#[test]
fn both_decoders_agree_on_the_first_transfer() {
    let once = sender_packets(b"agree", 3, true, false, 0);
    let mut looped = once.clone();
    looped.extend(once.iter().cloned());
    for ps in [&once, &looped, &once[..1].to_vec()] {
        let a = decode_packets(ps);
        let (b, _) = decode_packets_counting_repeats(ps);
        assert_eq!(a.is_some(), b.is_some());
        if let (Some(a), Some(b)) = (a, b) {
            assert_eq!((a.filename, a.body, a.is_text), (b.filename, b.body, b.is_text));
        }
    }
}

#[test]
fn session_ids_only_grow() {
    let a = sender_packets(b"first", 4, true, false, 0);
    let b = sender_packets(b"second transfer", 4, true, false, 0);
    let mut tracker = TransferTracker::new();
    let mut last = tracker.session_seq();
    for p in a.iter().chain(b.iter()).chain(a.iter()) {
        tracker.feed_at(p, 0);
        let now = tracker.session_seq();
        assert!(now == last || now == last + 1);
        last = now;
    }
    tracker.reset();
    assert_eq!(tracker.session_seq(), last);
}

#[test]
fn transfer_needs_every_source_symbol_without_repair() {
    let data: Vec<u8> = (0..100u8).collect();
    let packets = sender_packets(&data, 10, true, false, 0);
    assert_eq!(packets.len(), 10);
    let mut tracker = TransferTracker::new();
    for p in &packets[1..] {
        assert!(matches!(tracker.feed(p), FeedResult::Progress));
    }
    assert!(matches!(tracker.feed(&packets[0]), FeedResult::Completed(_)));
}

/// A transport packet with the given header word, data length and payload.
fn raw_packet(word: u32, data_length: u32, payload: &[u8]) -> Vec<u8> {
    let mut packet = vec![MAGIC_BYTE];
    packet.extend_from_slice(&word.to_le_bytes());
    packet.extend_from_slice(&data_length.to_le_bytes()[..3]);
    packet.extend_from_slice(payload);
    let crc = crc32c(&packet);
    packet.extend_from_slice(&crc.to_le_bytes());
    packet
}

#[test]
fn oversized_payload_starts_a_session_with_a_cut_symbol_size() {
    // 65541 payload bytes: symbol size 65537, kept to 16 bits: 1.
    let packet = raw_packet(31 << 24, 1000, &vec![0u8; 65541]);
    let mut tracker = TransferTracker::new();
    assert!(matches!(tracker.feed_at(&packet, 0), FeedResult::Progress));
    assert_eq!(tracker.session_seq(), 1);
    let key = tracker.session_key().unwrap();
    assert_eq!((key.data_length, key.transport_payload_size), (1000, 65541));
    // No payload of that size fits the session's 1-byte symbols.
    assert!(tracker.received_esis().is_empty());
    assert_eq!(tracker.progress_status().unwrap().total, 1000);
    // A symbol size that is cut to 0 cannot make a session: ignored.
    let zero = raw_packet(31 << 24, 1000, &vec![0u8; 65540]);
    assert!(matches!(tracker.feed_at(&zero, 0), FeedResult::Ignored));
    assert_eq!(tracker.session_seq(), 1);
}

#[test]
fn repair_symbols_that_would_overflow_the_decoder_are_not_fed() {
    // One block of 989 one-byte symbols (K = K' = 989). For ESI 3158229 the
    // RFC 6330 tuple value y is 2^32 - 1, which the decoder cannot take.
    let mut s = RaptorQSession::new(989, 5);
    let esi: u32 = 3158229;
    let unsafe_repair = vec![0u8, (esi >> 16) as u8, (esi >> 8) as u8, esi as u8, 7];
    assert!(s.push(&unsafe_repair).is_none());
    assert!(s.received_esis().is_empty());
    // An ordinary repair symbol is taken.
    let ok = vec![0u8, 0, 3, 232, 7]; // ESI 1000
    assert!(s.push(&ok).is_none());
    assert_eq!(s.received_esis(), vec![(0, 1000)]);
}
