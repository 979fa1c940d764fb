use mview::decode::{write_chunk, ChunkPiece};
use mview::pipeline::decoder_step;
use mview::render::{count_lines, print_additional, print_bitpos, print_raw_ascii, print_raw_bin,
    print_raw_hex, print_statistics};
use mview::{size_in_bits, Args, Stats};

fn make_args() -> Args {
    Args {
        infile: "nil".to_string(),
        outfile: "nil".to_string(),
        config: "nil".to_string(),
        pcap: false,
        chunksize: 0,
        offset: 0,
        bitoffset: 0,
        rawhex: false,
        rawbin: false,
        rawascii: false,
        pause: 0,
        little_endian: false,
        timestamp: false,
        read_head: 0,
        print_statistics: false,
        print_bitpos: false,
        cursor_jump: false,
        clear: false,
        filter_newlines: false,
    }
}

fn make_stats() -> Stats {
    Stats {
        message_count: 0,
        message_len: 0,
        chunk_count: 0,
        chunk_start: 0,
        hex_lines: 0,
        bin_lines: 0,
    }
}

#[test]
fn test_size_in_bits() {
    assert_eq!(size_in_bits::<u16>(), 16);
}

#[test]
fn test_count_lines_rawbin() {
    // we divide the chunk into 8 byte wide lines, so therefore
    // this must be 25 / 8 = 3
    // plus 1 for the last line
    // plus 1 for the free line beneath the additional info
    // plus 2 because the config lines are always counted
    let mut args = make_args();
    args.rawbin = true;
    let mut stats = make_stats();
    stats.bin_lines = 3;
    assert_eq!(count_lines(&args, &stats, 2), 7);
}

#[test]
fn test_count_lines_rawhex() {
    // we divide the chunk into 16 byte wide lines, so therefore
    // this must be 58 / 16 = 3
    // plus 1 for the last line
    // plus 1 for the free line beneath the additional info
    // plus 2 because the config lines are always counted
    let mut args = make_args();
    args.rawhex = true;
    let mut stats = make_stats();
    stats.hex_lines = 3;
    assert_eq!(count_lines(&args, &stats, 2), 7);
}

#[test]
fn test_count_lines_rawascii() {
    // we divide the chunk into 16 byte wide lines, so therefore
    // this must be 58 / 16 = 3
    // plus 1 for the last line
    // plus 2 because the config lines are always counted
    // the ascii dump alone draws no separator line, so none is counted
    let mut args = make_args();
    args.rawascii = true;
    let mut stats = make_stats();
    stats.hex_lines = 3;
    assert_eq!(count_lines(&args, &stats, 2), 6);
}

#[test]
fn test_count_lines_bitpos() {
    // 2 for every bitpos above the config lines output
    // plus 2 because the config lines are always counted
    // plus 1 for the free line beneath the additional info
    // plus 1 for the last line
    let mut args = make_args();
    args.print_bitpos = true;
    let mut stats = make_stats();
    stats.hex_lines = 99;
    stats.bin_lines = 99;
    assert_eq!(count_lines(&args, &stats, 2), 5);
}

#[test]
fn test_count_lines_stats() {
    // 5 from the stats
    // plus 2 because the config lines are always counted
    // plus 1 for the free line beneath the additional info
    // plus 1 for the last line
    let mut args = make_args();
    args.print_statistics = true;
    let mut stats = make_stats();
    stats.bin_lines = 3;
    assert_eq!(count_lines(&args, &stats, 2), 9);
}

#[test]
fn test_count_lines_timestamp() {
    // 1 from the timestamp
    // plus 2 because the config lines are always counted
    // plus 1 for the free line beneath the additional info
    // plus 1 for the last line
    let mut args = make_args();
    args.timestamp = true;
    let mut stats = make_stats();
    stats.bin_lines = 3;
    assert_eq!(count_lines(&args, &stats, 2), 5);
}

#[test]
fn test_print_raw_hex() {
    let chunk: [u8; 20] = [
        0x01, 0x02, 0x03, 0x04, 0x05, 0x06, 0x07, 0x08, 0x09, 0x0A, 0x01, 0x02, 0x03, 0x04,
        0x05, 0x06, 0x07, 0x08, 0x09, 0x0A,
    ];

    let mut output = Vec::new();
    let hex_lines: usize = 2;
    print_raw_hex(&mut output, &chunk, hex_lines);
    assert_eq!(
        output,
        b"[01, 02, 03, 04, 05, 06, 07, 08, 09, 0A, 01, 02, 03, 04, 05, 06]\n[07, 08, 09, 0A]\n"
    );
}

#[test]
fn test_print_raw_bin() {
    let chunk: [u8; 10] = [0x01, 0x02, 0x03, 0x04, 0x05, 0x06, 0x07, 0x08, 0x09, 0x0A];

    let mut output = Vec::new();
    let bin_lines: usize = 2;
    print_raw_bin(&mut output, &chunk, bin_lines);
    assert_eq!(output, b"00000001 00000010 00000011 00000100 00000101 00000110 00000111 00001000 \n00001001 00001010 \n");
}

#[test]
fn test_print_raw_hex_pads_short_chunk() {
    let chunk: [u8; 4] = [0x01, 0x02, 0x03, 0x04];
    let mut output = Vec::new();
    print_raw_hex(&mut output, &chunk, 3);
    assert_eq!(output, b"[01, 02, 03, 04]\n\n\n");
}

#[test]
fn test_print_raw_ascii_replaces_invalid_bytes() {
    // an ill-formed byte shows as the replacement character, so the
    // dump is decoded text, not the raw input
    let chunk: [u8; 3] = [0xFF, b'a', b'b'];
    let mut output = Vec::new();
    print_raw_ascii(&mut output, &chunk, 1);
    assert_eq!(output, b"[ \xEF\xBF\xBDab ]\n");
}

#[test]
fn test_print_raw_ascii_drops_newlines() {
    let chunk: [u8; 4] = [b'a', b'\n', b'b', b'c'];
    let mut output = Vec::new();
    print_raw_ascii(&mut output, &chunk, 1);
    assert_eq!(output, b"[ abc ]\n");
}

#[test]
fn test_print_bitpos_line() {
    let mut output = Vec::new();
    print_bitpos(&mut output, 19);
    assert_eq!(output, b"byte 2, bit 3\n");
}

#[test]
fn test_print_statistics_block() {
    let stats = Stats {
        message_count: 3,
        message_len: 40,
        chunk_count: 2,
        chunk_start: 10,
        hex_lines: 1,
        bin_lines: 2,
    };
    let mut output = Vec::new();
    print_statistics(&stats, &mut output, 10);
    assert_eq!(
        output,
        b"Message no: 3\nMessage length: 40 bytes\nChunk length: 10 bytes\nCurrent chunk in this message: 2\nChunk starts at byte 10 of message\n"
    );
}

#[test]
fn test_count_lines_matches_rendered_window() {
    // the redraw accountant charges exactly the lines one window prints
    let mut args = make_args();
    args.rawhex = true;
    args.timestamp = true;
    args.print_statistics = true;
    args.print_bitpos = true;
    args.filter_newlines = true;
    let config_lines: Vec<String> = vec!["A:u8".to_owned(), "B:bitgap:3".to_owned()];
    let chunk: [u8; 3] = [1, 2, 3];
    let mut stats = Stats {
        message_count: 0,
        message_len: 0,
        chunk_count: 0,
        chunk_start: 0,
        hex_lines: 0,
        bin_lines: 0,
    };
    assert!(decoder_step(&mut stats, chunk.len(), 3));
    stats.on_chunk(3);
    let mut rendered: Vec<u8> = Vec::new();
    print_additional(&args, &stats, &mut rendered, &chunk, 3, b"2024-05-01 12:00:00\n");
    let (pieces, _end) = write_chunk(&config_lines, &chunk, 0, false, true, true).unwrap();
    for piece in pieces {
        match piece {
            ChunkPiece::Text(v) => rendered.extend_from_slice(&v),
            _ => panic!("no float or unknown fields in this schema"),
        }
    }
    let newlines = rendered.iter().filter(|b| **b == b'\n').count();
    assert_eq!(newlines, count_lines(&args, &stats, config_lines.len()) as usize);
}
