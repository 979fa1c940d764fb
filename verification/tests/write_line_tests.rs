use mview::decode::{write_gap, write_line, LineEvent};
use std::fmt::Display;

// one place builds the expected line so the shape is easy to adjust
fn format_write_line_output<T: Display>(expected: T) -> String {
    format!("Test: {}\n", expected)
}

#[test]
fn test_write_gap_5bit() {
    let bitpos_in_chunk: usize = 1;
    let chunk: [u8; 10] = [0, 1, 2, 3, 4, 5, 6, 7, 8, 9];

    let mut output = Vec::new();
    assert_eq!(write_gap(&chunk, bitpos_in_chunk, &mut output, 5, 1), 5);
    assert_eq!(output, b"(gap of 5 bit)\n");
}

#[test]
fn test_write_line_bool1_true() {
    let conf_line = "Test:bool1";
    let chunk: [u8; 10] = [0b10101010, 1, 2, 3, 4, 5, 6, 7, 8, 9];
    let mut bitpos_in_chunk: usize = 0;

    let mut output = Vec::new();
    write_line(conf_line, &chunk, &mut bitpos_in_chunk, &mut output, false, false).unwrap();
    assert_eq!(output, format_write_line_output("true").as_bytes());
}

#[test]
fn test_write_line_bool1_false() {
    let conf_line = "Test:bool1";
    let chunk: [u8; 10] = [0b10101010, 1, 2, 3, 4, 5, 6, 7, 8, 9];
    let mut bitpos_in_chunk: usize = 1;

    let mut output = Vec::new();
    write_line(conf_line, &chunk, &mut bitpos_in_chunk, &mut output, false, false).unwrap();
    assert_eq!(output, format_write_line_output("false").as_bytes());
}

#[test]
fn test_write_line_bool8_true() {
    let conf_line = "Test:bool8";
    let chunk: [u8; 10] = [0b1111_0000, 0b0000_1111, 0b0000_1111, 3, 4, 5, 6, 7, 8, 9];
    let mut bitpos_in_chunk: usize = 10;

    let mut output = Vec::new();
    write_line(conf_line, &chunk, &mut bitpos_in_chunk, &mut output, false, false).unwrap();
    assert_eq!(output, format_write_line_output("true").as_bytes());
}

#[test]
fn test_write_line_bool8_false() {
    let conf_line = "Test:bool8";
    let chunk: [u8; 10] = [0b1111_0000, 0b0000_1111, 0b0000_1111, 3, 4, 5, 6, 7, 8, 9];
    let mut bitpos_in_chunk: usize = 4;

    let mut output = Vec::new();
    write_line(conf_line, &chunk, &mut bitpos_in_chunk, &mut output, false, false).unwrap();
    assert_eq!(output, format_write_line_output("false").as_bytes());
}

#[test]
fn test_write_line_u8() {
    let conf_line = "Test:u8";
    let chunk: [u8; 10] = [0b1111_0000, 0b0000_1111, 0b0000_1111, 3, 4, 5, 6, 7, 8, 9];
    let mut bitpos_in_chunk: usize = 7;

    let mut output = Vec::new();
    write_line(conf_line, &chunk, &mut bitpos_in_chunk, &mut output, false, false).unwrap();
    // 0b00000111 = 7 in dec
    assert_eq!(output, format_write_line_output("7").as_bytes());
}

#[test]
fn test_write_line_u8_hex() {
    let conf_line = "Test:u8:h";
    let chunk: [u8; 10] = [0b1111_0000, 0b0000_1111, 0b0000_1111, 3, 4, 5, 6, 7, 8, 9];
    let mut bitpos_in_chunk: usize = 7;

    let mut output = Vec::new();
    write_line(conf_line, &chunk, &mut bitpos_in_chunk, &mut output, false, false).unwrap();
    // 0b00000111 = 7 in dec
    assert_eq!(output, format_write_line_output("0x07").as_bytes());
}

#[test]
fn test_write_line_u8_bin() {
    let conf_line = "Test:u8:b";
    let chunk: [u8; 10] = [0b1111_0000, 0b0000_1111, 0b0000_1111, 3, 4, 5, 6, 7, 8, 9];
    let mut bitpos_in_chunk: usize = 7;

    let mut output = Vec::new();
    write_line(conf_line, &chunk, &mut bitpos_in_chunk, &mut output, false, false).unwrap();
    // 0b00000111 = 7 in dec
    assert_eq!(output, format_write_line_output("00000111").as_bytes());
}

#[test]
fn test_write_line_u16_be() {
    let conf_line = "Test:u16";
    let chunk: [u8; 10] = [0b1111_0000, 0b0000_1111, 0b0000_1111, 3, 4, 5, 6, 7, 8, 9];
    let mut bitpos_in_chunk: usize = 4;

    let mut output = Vec::new();
    write_line(conf_line, &chunk, &mut bitpos_in_chunk, &mut output, false, false).unwrap();
    // 0b0000_0000_1111_0000 = 240 in dec
    assert_eq!(output, format_write_line_output("240").as_bytes());
}

#[test]
fn test_write_line_u16_le() {
    let conf_line = "Test:u16";
    let chunk: [u8; 10] = [0b1111_0000, 0b0000_1111, 0b0000_1111, 3, 4, 5, 6, 7, 8, 9];
    let mut bitpos_in_chunk: usize = 4;

    let mut output = Vec::new();
    write_line(conf_line, &chunk, &mut bitpos_in_chunk, &mut output, true, false).unwrap();
    // 0b1111_0000_0000_0000 = 61440 in dec
    assert_eq!(output, format_write_line_output("61440").as_bytes());
}

#[test]
fn test_write_line_u32_be() {
    let conf_line = "Test:u32";
    let chunk: [u8; 10] = [0xFF, 0x0F, 0xFF, 0x0F, 0xFF, 5, 6, 7, 8, 9];
    let mut bitpos_in_chunk: usize = 4;

    let mut output = Vec::new();
    write_line(conf_line, &chunk, &mut bitpos_in_chunk, &mut output, false, false).unwrap();
    // 0xF0FF_F0FF = 4043305215 in dec
    assert_eq!(output, format_write_line_output("4043305215").as_bytes());
}

#[test]
fn test_write_line_u32_le() {
    let conf_line = "Test:u32";
    let chunk: [u8; 10] = [
        0b0000_1111,
        0b0000_1111,
        0b0000_1111,
        0b1111_0000,
        0b1111_0000,
        5,
        6,
        7,
        8,
        9,
    ];
    let mut bitpos_in_chunk: usize = 4;

    let mut output = Vec::new();
    write_line(conf_line, &chunk, &mut bitpos_in_chunk, &mut output, true, false).unwrap();
    // 0b0000_1111_1111_1111_1111_0000_1111_0000 = 268431600 in dec
    assert_eq!(output, format_write_line_output("268431600").as_bytes());
}

#[test]
fn test_write_line_u64_be() {
    let conf_line = "Test:u64";
    let chunk: [u8; 10] = [
        0b0000_1111,
        0b0000_1111,
        0b0000_1111,
        0b1111_0000,
        0b1111_0000,
        0b0000_1111,
        0b0000_1111,
        0b1111_0000,
        0b0000_1111,
        9,
    ];
    let mut bitpos_in_chunk: usize = 4;

    let mut output = Vec::new();
    write_line(conf_line, &chunk, &mut bitpos_in_chunk, &mut output, false, false).unwrap();
    // 0b1111_0000 1111_0000 1111_1111 0000_1111 0000_0000 1111_0000 1111_1111 0000_0000 = 17361657003418648320 in dec
    assert_eq!(output, format_write_line_output("17361657003418648320").as_bytes());
}

#[test]
fn test_write_line_u64_le() {
    let conf_line = "Test:u64";
    let chunk: [u8; 10] = [
        0b0000_1111,
        0b0000_1111,
        0b0000_1111,
        0b1111_0000,
        0b1111_0000,
        0b0000_1111,
        0b0000_1111,
        0b1111_0000,
        0b0000_1111,
        9,
    ];
    let mut bitpos_in_chunk: usize = 4;

    let mut output = Vec::new();
    write_line(conf_line, &chunk, &mut bitpos_in_chunk, &mut output, true, false).unwrap();
    // 0b0000_0000 1111_1111 1111_0000 0000_0000 0000_1111 1111_1111 1111_0000 1111_0000 = 72040002120315120 in dec
    assert_eq!(output, format_write_line_output("72040002120315120").as_bytes());
}

#[test]
fn test_write_line_u128_be() {
    let conf_line = "Test:u128";
    let chunk: [u8; 20] = [
        0b0000_1111,
        0b0000_1111,
        0b0000_1111,
        0b1111_0000,
        0b1111_0000,
        0b0000_1111,
        0b0000_1111,
        0b1111_0000,
        0b0000_1111,
        0b1111_1111,
        0b0000_1111,
        0b0000_1111,
        0b0000_1111,
        0b1111_0000,
        0b1111_0000,
        0b0000_1111,
        0b0000_1111,
        0b1111_0000,
        0b0000_1111,
        0b1111_1111,
    ];
    let mut bitpos_in_chunk: usize = 4;

    let mut output = Vec::new();
    write_line(conf_line, &chunk, &mut bitpos_in_chunk, &mut output, false, false).unwrap();
    // 11110000111100001111111100001111000000001111000011111111000000001111111111110000111100001111000011111111000011110000000011110000
    // = 320266043437590883436287332191935856880 in dec
    assert_eq!(
        output,
        format_write_line_output("320266043437590883436287332191935856880").as_bytes()
    );
}

#[test]
fn test_write_line_u128_le() {
    let conf_line = "Test:u128";
    let chunk: [u8; 20] = [
        0b0000_1111,
        0b0000_1111,
        0b0000_1111,
        0b1111_0000,
        0b1111_0000,
        0b0000_1111,
        0b0000_1111,
        0b1111_0000,
        0b0000_1111,
        0b1111_1111,
        0b0000_1111,
        0b0000_1111,
        0b0000_1111,
        0b1111_0000,
        0b1111_0000,
        0b0000_1111,
        0b0000_1111,
        0b1111_0000,
        0b0000_1111,
        0b1111_1111,
    ];
    let mut bitpos_in_chunk: usize = 4;
    // 11110000000000000000111111111111111100001111000011110000111111110000000011111111111100000000000000001111111111111111000011110000
    // = 319015043502272988035154135038543524080
    let mut output = Vec::new();
    write_line(conf_line, &chunk, &mut bitpos_in_chunk, &mut output, true, false).unwrap();
    assert_eq!(
        output,
        format_write_line_output("319015043502272988035154135038543524080").as_bytes()
    );
}

#[test]
fn test_write_line_i8() {
    let conf_line = "Test:i8";
    let chunk: [u8; 10] = [0b1111_0001, 0b0000_1111, 0b0000_1111, 3, 4, 5, 6, 7, 8, 9];
    let mut bitpos_in_chunk: usize = 7;

    let mut output = Vec::new();
    write_line(conf_line, &chunk, &mut bitpos_in_chunk, &mut output, false, false).unwrap();
    // 0b10000111 = -121 in dec
    assert_eq!(output, format_write_line_output("-121").as_bytes());
}

#[test]
fn test_write_line_i16_be() {
    let conf_line = "Test:i16";
    let chunk: [u8; 10] = [0b1111_1000, 0b0000_1111, 0b0000_1111, 3, 4, 5, 6, 7, 8, 9];
    let mut bitpos_in_chunk: usize = 4;

    let mut output = Vec::new();
    write_line(conf_line, &chunk, &mut bitpos_in_chunk, &mut output, false, false).unwrap();
    // 0b1000_0000_1111_0000 = -32528 in dec
    assert_eq!(output, format_write_line_output("-32528").as_bytes());
}

#[test]
fn test_write_line_i16_le() {
    let conf_line = "Test:i16";
    let chunk: [u8; 10] = [0b1111_0000, 0b0000_1111, 0b0000_1111, 3, 4, 5, 6, 7, 8, 9];
    let mut bitpos_in_chunk: usize = 4;

    let mut output = Vec::new();
    write_line(conf_line, &chunk, &mut bitpos_in_chunk, &mut output, true, false).unwrap();
    // 0b1111_0000_0000_0000 = -4096 in dec
    assert_eq!(output, format_write_line_output("-4096").as_bytes());
}

#[test]
fn test_write_line_i32_be() {
    let conf_line = "Test:i32";
    let chunk: [u8; 10] = [
        0b0000_1111,
        0b0000_1111,
        0b0000_1111,
        0b1111_0000,
        0b1111_0000,
        5,
        6,
        7,
        8,
        9,
    ];
    let mut bitpos_in_chunk: usize = 4;

    let mut output = Vec::new();
    write_line(conf_line, &chunk, &mut bitpos_in_chunk, &mut output, false, false).unwrap();
    // 11110000111100001111111100001111 = -252641521 in dec
    assert_eq!(output, format_write_line_output("-252641521").as_bytes());
}

#[test]
fn test_write_line_i32_le() {
    let conf_line = "Test:i32";
    let chunk: [u8; 10] = [
        0b0000_1111,
        0b0000_1111,
        0b0000_1111,
        0b1111_1000,
        0b1111_0000,
        5,
        6,
        7,
        8,
        9,
    ];
    let mut bitpos_in_chunk: usize = 4;

    let mut output = Vec::new();
    write_line(conf_line, &chunk, &mut bitpos_in_chunk, &mut output, true, false).unwrap();
    // 0b1000_1111_1111_1111_1111_0000_1111_0000 = -1879052048 in dec
    assert_eq!(output, b"Test: -1879052048\n");
}

#[test]
fn test_write_line_i64_be() {
    let conf_line = "Test:i64";
    let chunk: [u8; 10] = [
        0b0000_1111,
        0b0000_1111,
        0b0000_1111,
        0b1111_0000,
        0b1111_0000,
        0b0000_1111,
        0b0000_1111,
        0b1111_0000,
        0b0000_1111,
        9,
    ];
    let mut bitpos_in_chunk: usize = 4;

    let mut output = Vec::new();
    write_line(conf_line, &chunk, &mut bitpos_in_chunk, &mut output, false, false).unwrap();
    // 0b1111_0000 1111_0000 1111_1111 0000_1111 0000_0000 1111_0000 1111_1111 0000_0000 = -1085087070290903296 in dec
    assert_eq!(output, format_write_line_output("-1085087070290903296").as_bytes());
}

#[test]
fn test_write_line_i64_le() {
    let conf_line = "Test:i64";
    let chunk: [u8; 10] = [
        0b0000_1111,
        0b0000_1111,
        0b0000_1111,
        0b1111_0000,
        0b1111_0000,
        0b0000_1111,
        0b0000_1111,
        0b1111_1000,
        0b0000_1111,
        9,
    ];
    let mut bitpos_in_chunk: usize = 4;

    let mut output = Vec::new();
    write_line(conf_line, &chunk, &mut bitpos_in_chunk, &mut output, true, false).unwrap();
    // 0b1000_0000 1111_1111 1111_0000 0000_0000 0000_1111 1111_1111 1111_0000 1111_0000 = -9151332034734460688 in dec
    assert_eq!(output, format_write_line_output("-9151332034734460688").as_bytes());
}

#[test]
fn test_write_line_i128_be() {
    let conf_line = "Test:i128";
    let chunk: [u8; 20] = [
        0b0000_1111,
        0b0000_1111,
        0b0000_1111,
        0b1111_0000,
        0b1111_0000,
        0b0000_1111,
        0b0000_1111,
        0b1111_0000,
        0b0000_1111,
        0b1111_1111,
        0b0000_1111,
        0b0000_1111,
        0b0000_1111,
        0b1111_0000,
        0b1111_0000,
        0b0000_1111,
        0b0000_1111,
        0b1111_0000,
        0b0000_1111,
        0b1111_1111,
    ];
    let mut bitpos_in_chunk: usize = 4;

    let mut output = Vec::new();
    write_line(conf_line, &chunk, &mut bitpos_in_chunk, &mut output, false, false).unwrap();
    // 11110000111100001111111100001111000000001111000011111111000000001111111111110000111100001111000011111111000011110000000011110000
    // = -20016323483347580027087275239832354576 in dec
    assert_eq!(
        output,
        format_write_line_output("-20016323483347580027087275239832354576").as_bytes()
    );
}

#[test]
fn test_write_line_i128_le() {
    let conf_line = "Test:i128";
    let chunk: [u8; 20] = [
        0b0000_1111,
        0b0000_1111,
        0b0000_1111,
        0b1111_0000,
        0b1111_0000,
        0b0000_1111,
        0b0000_1111,
        0b1111_0000,
        0b0000_1111,
        0b1111_1111,
        0b0000_1111,
        0b0000_1111,
        0b0000_1111,
        0b1111_0000,
        0b1111_0000,
        0b0000_1111,
        0b0000_1111,
        0b1111_0000,
        0b0000_1111,
        0b1111_1111,
    ];
    let mut bitpos_in_chunk: usize = 4;
    // 11110000000000000000111111111111111100001111000011110000111111110000000011111111111100000000000000001111111111111111000011110000
    // = 319015043502272988035154135038543524080
    let mut output = Vec::new();
    write_line(conf_line, &chunk, &mut bitpos_in_chunk, &mut output, true, false).unwrap();
    assert_eq!(
        output,
        format_write_line_output("-21267323418665475428220472393224687376").as_bytes()
    );
}

#[test]
fn test_write_line_f32() {
    let conf_line = "Test:f32";
    let chunk: [u8; 10] = [
        0b0000_1100,
        0b0000_0100,
        0b1100_1100,
        0b1100_1100,
        0b1101_0000,
        5,
        6,
        7,
        8,
        9,
    ];
    let mut bitpos_in_chunk: usize = 4;

    let mut output = Vec::new();
    let ev = write_line(conf_line, &chunk, &mut bitpos_in_chunk, &mut output, false, false)
        .unwrap();
    // the library hands the raw pattern out; the caller renders the value
    let bits = match ev {
        LineEvent::Float32(b) => b,
        _ => panic!("expected a 32-bit float event"),
    };
    output.extend_from_slice(format!("{}\n", f32::from_bits(bits)).as_bytes());
    // 11000000010011001100110011001101 = -3.2
    assert_eq!(output, format_write_line_output("-3.2").as_bytes());
}

#[test]
fn test_write_line_f64() {
    let conf_line = "Test:f64";
    let chunk: [u8; 10] = [
        0b0000_1100,
        0b0000_0000,
        0b1001_1001,
        0b1001_1001,
        0b1001_1001,
        0b1001_1001,
        0b1001_1001,
        0b1001_1001,
        0b1001_1001,
        9,
    ];
    let mut bitpos_in_chunk: usize = 4;

    let mut output = Vec::new();
    let ev = write_line(conf_line, &chunk, &mut bitpos_in_chunk, &mut output, false, false)
        .unwrap();
    let bits = match ev {
        LineEvent::Float64(b) => b,
        _ => panic!("expected a 64-bit float event"),
    };
    output.extend_from_slice(format!("{}\n", f64::from_bits(bits)).as_bytes());
    // 1100000000001001100110011001100110011001100110011001100110011010 = -3.1999999999999997
    assert_eq!(output, format_write_line_output("-3.1999999999999997").as_bytes());
}

#[test]
fn test_write_line_string() {
    let conf_line = "Test:string:3";
    let chunk: [u8; 10] = [
        0b0000_1100,
        b'a',
        b'b',
        b'c',
        0b1001_1001,
        0b1001_1001,
        0b1001_1001,
        0b1001_1001,
        0b1001_1001,
        9,
    ];
    let mut bitpos_in_chunk: usize = 8;

    let mut output = Vec::new();
    write_line(conf_line, &chunk, &mut bitpos_in_chunk, &mut output, false, false).unwrap();
    assert_eq!(output, format_write_line_output("abc").as_bytes());
}

#[test]
fn test_write_line_uarb() {
    let conf_line = "Test:uarb:9";
    let chunk: [u8; 10] = [
        0b0000_1100,
        0b1001_1001,
        0b1111_0000,
        0b1111_0000,
        0b0000_1111,
        0b0000_1111,
        0b1111_0000,
        0b0000_1111,
        0b1001_1001,
        0b1001_1001,
    ];
    let mut bitpos_in_chunk: usize = 4;

    let mut output = Vec::new();
    write_line(conf_line, &chunk, &mut bitpos_in_chunk, &mut output, false, false).unwrap();
    // 110010011 = 403
    assert_eq!(output, format_write_line_output("403").as_bytes());
}

#[test]
fn test_write_line_iarb() {
    let conf_line = "Test:iarb:9";
    let chunk: [u8; 10] = [
        0b0000_1100,
        0b1001_1001,
        0b1111_0000,
        0b1111_0000,
        0b0000_1111,
        0b0000_1111,
        0b1111_0000,
        0b0000_1111,
        0b1001_1001,
        0b1001_1001,
    ];
    let mut bitpos_in_chunk: usize = 4;

    let mut output = Vec::new();
    write_line(conf_line, &chunk, &mut bitpos_in_chunk, &mut output, false, false).unwrap();
    // 110010011 = -109
    assert_eq!(output, format_write_line_output("-109").as_bytes());
}

#[test]
fn test_write_line_bytegap() {
    let conf_line = "Test:bytegap:1";
    let chunk: [u8; 10] = [
        0b0000_1100,
        0b1001_1001,
        0b1111_0000,
        0b1111_0000,
        0b0000_1111,
        0b0000_1111,
        0b1111_0000,
        0b0000_1111,
        0b1001_1001,
        0b1001_1001,
    ];
    let mut bitpos_in_chunk: usize = 4;

    let mut output = Vec::new();
    write_line(conf_line, &chunk, &mut bitpos_in_chunk, &mut output, false, false).unwrap();
    assert_eq!(output, format_write_line_output("(gap of 8 bit)").as_bytes());
}

#[test]
fn test_write_line_bitgap() {
    let conf_line = "Test:bitgap:1";
    let chunk: [u8; 10] = [
        0b0000_1100,
        0b1001_1001,
        0b1111_0000,
        0b1111_0000,
        0b0000_1111,
        0b0000_1111,
        0b1111_0000,
        0b0000_1111,
        0b1001_1001,
        0b1001_1001,
    ];
    let mut bitpos_in_chunk: usize = 4;

    let mut output = Vec::new();
    write_line(conf_line, &chunk, &mut bitpos_in_chunk, &mut output, false, false).unwrap();
    assert_eq!(output, format_write_line_output("(gap of 1 bit)").as_bytes());
}

#[test]
fn test_write_line_advances_cursor_by_width() {
    let conf_line = "Test:u16";
    let chunk: [u8; 4] = [1, 2, 3, 4];
    let mut bitpos_in_chunk: usize = 3;
    let mut output = Vec::new();
    write_line(conf_line, &chunk, &mut bitpos_in_chunk, &mut output, false, false).unwrap();
    assert_eq!(bitpos_in_chunk, 19);
}

#[test]
fn test_write_line_insufficient_data() {
    // a field wider than what is left renders the diagnostic line and
    // still advances the cursor by its declared width
    let conf_line = "Test:u32";
    let chunk: [u8; 2] = [1, 2];
    let mut bitpos_in_chunk: usize = 0;
    let mut output = Vec::new();
    write_line(conf_line, &chunk, &mut bitpos_in_chunk, &mut output, false, false).unwrap();
    assert_eq!(
        output,
        b"Test: values size is bigger than what is left of that data chunk\n"
    );
    assert_eq!(bitpos_in_chunk, 32);
}

#[test]
fn test_write_line_unknown_kind() {
    let conf_line = "Test:mystery";
    let chunk: [u8; 4] = [1, 2, 3, 4];
    let mut bitpos_in_chunk: usize = 5;
    let mut output = Vec::new();
    let ev = write_line(conf_line, &chunk, &mut bitpos_in_chunk, &mut output, false, false)
        .unwrap();
    assert!(matches!(ev, LineEvent::UnknownKind));
    assert_eq!(output, b"");
    assert_eq!(bitpos_in_chunk, 5);
}

#[test]
fn test_write_line_string_filters_newlines() {
    let conf_line = "Test:string:4";
    let chunk: [u8; 5] = [b'a', b'b', b'\n', b'c', 0];
    let mut bitpos_in_chunk: usize = 0;
    let mut output = Vec::new();
    write_line(conf_line, &chunk, &mut bitpos_in_chunk, &mut output, false, true).unwrap();
    assert_eq!(output, format_write_line_output("abc").as_bytes());
}

#[test]
fn test_write_line_hex_no_full_width_padding() {
    // the hex rendering pads to two digits, never to the operand width
    let conf_line = "Test:u16:h";
    let chunk: [u8; 2] = [0x0F, 0xFF];
    let mut bitpos_in_chunk: usize = 0;
    let mut output = Vec::new();
    write_line(conf_line, &chunk, &mut bitpos_in_chunk, &mut output, false, false).unwrap();
    assert_eq!(output, format_write_line_output("0xFFF").as_bytes());
}

#[test]
fn test_write_gap_ignores_window_content() {
    let zeros: [u8; 10] = [0; 10];
    let ones: [u8; 10] = [0xFF; 10];
    let mut out_zeros = Vec::new();
    let mut out_ones = Vec::new();
    assert_eq!(write_gap(&zeros, 2, &mut out_zeros, 5, 1), 5);
    assert_eq!(write_gap(&ones, 2, &mut out_ones, 5, 1), 5);
    assert_eq!(out_zeros, out_ones);
    assert_eq!(out_zeros, b"(gap of 5 bit)\n");
}
