use mview::decode::{write_chunk, ChunkPiece};
use mview::pipeline::{decoder_step, effective_chunksize, pcap_ts_from_magic, source_step,
    split_chunks, ConfigError, PcapTs, SourceAction};
use mview::Stats;

fn flatten_pieces(pieces: &[ChunkPiece]) -> Vec<u8> {
    let mut out = Vec::new();
    for p in pieces {
        match p {
            ChunkPiece::Text(v) => out.extend_from_slice(v),
            ChunkPiece::Float32(b) => {
                out.extend_from_slice(format!("{}\n", f32::from_bits(*b)).as_bytes())
            }
            ChunkPiece::Float64(b) => {
                out.extend_from_slice(format!("{}\n", f64::from_bits(*b)).as_bytes())
            }
            ChunkPiece::UnknownKind => {}
        }
    }
    out
}

#[test]
fn test_pcap_ts_from_magic() {
    assert_eq!(pcap_ts_from_magic(0xA1B2C3D4), Some(PcapTs::Microsecs));
    assert_eq!(pcap_ts_from_magic(0xD4C3B2A1), Some(PcapTs::Microsecs));
    assert_eq!(pcap_ts_from_magic(0xA1B23C4D), Some(PcapTs::Nanosecs));
    assert_eq!(pcap_ts_from_magic(0x4D3CB2A1), Some(PcapTs::Nanosecs));
    assert_eq!(pcap_ts_from_magic(0x12345678), None);
}

#[test]
fn test_effective_chunksize_explicit_wins() {
    assert_eq!(effective_chunksize(10, 999), Ok(10));
}

#[test]
fn test_effective_chunksize_derived_from_schema() {
    assert_eq!(effective_chunksize(0, 17), Ok(2));
}

#[test]
fn test_effective_chunksize_zero_is_an_error() {
    assert_eq!(effective_chunksize(0, 7), Err(ConfigError::ZeroChunksize));
}

#[test]
fn test_split_chunks_with_short_tail() {
    let buffer: [u8; 7] = [1, 2, 3, 4, 5, 6, 7];
    let windows = split_chunks(&buffer, 3);
    assert_eq!(windows.len(), 3);
    assert_eq!(windows[0], vec![1, 2, 3]);
    assert_eq!(windows[1], vec![4, 5, 6]);
    assert_eq!(windows[2], vec![7]);
}

#[test]
fn test_split_chunks_empty_message() {
    let buffer: [u8; 0] = [];
    let windows = split_chunks(&buffer, 4);
    assert_eq!(windows.len(), 0);
}

#[test]
fn test_decoder_step_counts_message() {
    let mut stats = Stats {
        message_count: 4,
        message_len: 0,
        chunk_count: 7,
        chunk_start: 21,
        hex_lines: 0,
        bin_lines: 0,
    };
    let proceed = decoder_step(&mut stats, 25, 25);
    assert!(proceed);
    assert_eq!(stats.message_count, 5);
    assert_eq!(stats.message_len, 25);
    assert_eq!(stats.chunk_count, 0);
    // 25 bytes in one window: 2 hex rows of 16, 4 binary rows of 8
    assert_eq!(stats.hex_lines, 2);
    assert_eq!(stats.bin_lines, 4);
}

#[test]
fn test_decoder_step_sentinel_exits_without_counting() {
    // the empty buffer is the shutdown sentinel: the loop ends and no
    // counter moves
    let mut stats = Stats {
        message_count: 4,
        message_len: 9,
        chunk_count: 7,
        chunk_start: 21,
        hex_lines: 1,
        bin_lines: 2,
    };
    let before = stats;
    let proceed = decoder_step(&mut stats, 0, 25);
    assert!(!proceed);
    assert_eq!(stats, before);
}

#[test]
fn test_stats_on_chunk() {
    let mut stats = Stats {
        message_count: 1,
        message_len: 30,
        chunk_count: 2,
        chunk_start: 10,
        hex_lines: 1,
        bin_lines: 2,
    };
    stats.on_chunk(10);
    assert_eq!(stats.chunk_start, 20);
    assert_eq!(stats.chunk_count, 3);
}

#[test]
fn test_source_run_sends_sentinel_once_and_last() {
    // a finite file source: two data reads, then end of input; the
    // empty sentinel is the single final message
    let reads: [usize; 3] = [5, 3, 0];
    let mut sent: Vec<usize> = Vec::new();
    for n in reads {
        match source_step(false, n, 0) {
            SourceAction::Retry => continue,
            SourceAction::Stop => break,
            SourceAction::SendAll => sent.push(n),
            SourceAction::SendHead => unreachable!("no head limit is set"),
        }
    }
    sent.push(0); // the end-of-stream sentinel
    assert_eq!(sent, vec![5, 3, 0]);
    assert!(sent[..sent.len() - 1].iter().all(|n| *n > 0));
}

#[test]
fn test_bounded_queue_backpressure() {
    // the channel between the stages has a fixed capacity: with the
    // receiver never draining, no further buffer enters
    let (tx, rx) = crossbeam::channel::bounded::<Vec<u8>>(2);
    assert!(tx.try_send(vec![1]).is_ok());
    assert!(tx.try_send(vec![2]).is_ok());
    assert!(tx.try_send(vec![3]).is_err());
    assert_eq!(rx.len(), 2);
    drop(rx);
}

#[test]
fn test_pipeline_shutdown_after_sentinel() {
    // a source sends two messages and the empty sentinel; the decoder
    // loop drains the queue and exits at the sentinel
    let (tx, rx) = crossbeam::channel::bounded::<Vec<u8>>(16);
    tx.send(vec![1, 2, 3]).unwrap();
    tx.send(vec![4, 5]).unwrap();
    tx.send(Vec::new()).unwrap();
    let mut stats = Stats {
        message_count: 0,
        message_len: 0,
        chunk_count: 0,
        chunk_start: 0,
        hex_lines: 0,
        bin_lines: 0,
    };
    let mut rounds: u32 = 0;
    loop {
        let buffer = rx.recv().unwrap();
        if !decoder_step(&mut stats, buffer.len(), 4) {
            break;
        }
        rounds += 1;
    }
    assert_eq!(rounds, 2);
    assert_eq!(stats.message_count, 2);
    assert_eq!(stats.message_len, 2);
}

#[test]
fn test_write_chunk_exact_window() {
    // a window whose bit length equals the schema width is consumed
    // exactly: the final cursor is the window's bit length
    let config_lines: Vec<String> = vec!["A:u8".to_owned(), "B:u16".to_owned()];
    let chunk: [u8; 3] = [7, 1, 2];
    let (pieces, end) = write_chunk(&config_lines, &chunk, 0, false, false, false).unwrap();
    assert_eq!(end, 24);
    assert_eq!(flatten_pieces(&pieces), b"A: 7\nB: 258\n\n");
}

#[test]
fn test_write_chunk_with_bit_offset() {
    // the starting cursor shifts every field by the same offset
    let config_lines: Vec<String> = vec!["Test:u32".to_owned()];
    let chunk: [u8; 10] = [0xFF, 0x0F, 0xFF, 0x0F, 0xFF, 5, 6, 7, 8, 9];
    let (pieces, end) = write_chunk(&config_lines, &chunk, 4, false, false, false).unwrap();
    assert_eq!(flatten_pieces(&pieces), b"Test: 4043305215\n\n");
    assert_eq!(end, 36);
}

#[test]
fn test_write_chunk_is_deterministic() {
    let config_lines: Vec<String> =
        vec!["A:f32".to_owned(), "B:iarb:9".to_owned(), "C:bitgap:3".to_owned()];
    let chunk: [u8; 8] = [0xC0, 0x4C, 0xCC, 0xCD, 0x99, 0x01, 0x02, 0x03];
    let (p1, e1) = write_chunk(&config_lines, &chunk, 0, false, false, true).unwrap();
    let (p2, e2) = write_chunk(&config_lines, &chunk, 0, false, false, true).unwrap();
    assert_eq!(e1, e2);
    assert_eq!(flatten_pieces(&p1), flatten_pieces(&p2));
}

#[test]
fn test_write_chunk_bitpos_lines() {
    let config_lines: Vec<String> = vec!["A:bool1".to_owned(), "B:u8".to_owned()];
    let chunk: [u8; 2] = [0b1000_0001, 0x41];
    let (pieces, end) = write_chunk(&config_lines, &chunk, 0, false, false, true).unwrap();
    assert_eq!(end, 9);
    assert_eq!(
        flatten_pieces(&pieces),
        b"byte 0, bit 0\nA: true\nbyte 0, bit 1\nB: 2\n\n"
    );
}
