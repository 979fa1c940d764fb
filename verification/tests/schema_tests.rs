use mview::schema::{chunksize_by_config, filter_config_lines, parse_config_line,
    unknown_kind_lines};
use mview::{Format, SchemaError};

#[test]
fn test_chunksize_by_config_bool1() {
    let config = "Field:bool1";
    let config_lines: Vec<String> = config.lines().map(|s| s.to_owned()).collect();
    assert_eq!(chunksize_by_config(&config_lines).unwrap(), 1);
}

#[test]
fn test_chunksize_by_config_bool8() {
    let config = "Field:bool8";
    let config_lines: Vec<String> = config.lines().map(|s| s.to_owned()).collect();
    assert_eq!(chunksize_by_config(&config_lines).unwrap(), 8);
}

#[test]
fn test_chunksize_by_config_u8() {
    let config = "Field:u8";
    let config_lines: Vec<String> = config.lines().map(|s| s.to_owned()).collect();
    assert_eq!(chunksize_by_config(&config_lines).unwrap(), 8);
}

#[test]
fn test_chunksize_by_config_i8() {
    let config = "Field:i8";
    let config_lines: Vec<String> = config.lines().map(|s| s.to_owned()).collect();
    assert_eq!(chunksize_by_config(&config_lines).unwrap(), 8);
}

#[test]
fn test_chunksize_by_config_u16() {
    let config = "Field:u16";
    let config_lines: Vec<String> = config.lines().map(|s| s.to_owned()).collect();
    assert_eq!(chunksize_by_config(&config_lines).unwrap(), 16);
}

#[test]
fn test_chunksize_by_config_i16() {
    let config = "Field:i16";
    let config_lines: Vec<String> = config.lines().map(|s| s.to_owned()).collect();
    assert_eq!(chunksize_by_config(&config_lines).unwrap(), 16);
}

#[test]
fn test_chunksize_by_config_u32() {
    let config = "Field:u32";
    let config_lines: Vec<String> = config.lines().map(|s| s.to_owned()).collect();
    assert_eq!(chunksize_by_config(&config_lines).unwrap(), 32);
}

#[test]
fn test_chunksize_by_config_i32() {
    let config = "Field:i32";
    let config_lines: Vec<String> = config.lines().map(|s| s.to_owned()).collect();
    assert_eq!(chunksize_by_config(&config_lines).unwrap(), 32);
}

#[test]
fn test_chunksize_by_config_f32() {
    let config = "Field:f32";
    let config_lines: Vec<String> = config.lines().map(|s| s.to_owned()).collect();
    assert_eq!(chunksize_by_config(&config_lines).unwrap(), 32);
}

#[test]
fn test_chunksize_by_config_u64() {
    let config = "Field:u64";
    let config_lines: Vec<String> = config.lines().map(|s| s.to_owned()).collect();
    assert_eq!(chunksize_by_config(&config_lines).unwrap(), 64);
}

#[test]
fn test_chunksize_by_config_i64() {
    let config = "Field:i64";
    let config_lines: Vec<String> = config.lines().map(|s| s.to_owned()).collect();
    assert_eq!(chunksize_by_config(&config_lines).unwrap(), 64);
}

#[test]
fn test_chunksize_by_config_f64() {
    let config = "Field:f64";
    let config_lines: Vec<String> = config.lines().map(|s| s.to_owned()).collect();
    assert_eq!(chunksize_by_config(&config_lines).unwrap(), 64);
}

#[test]
fn test_chunksize_by_config_u128() {
    let config = "Field:u128";
    let config_lines: Vec<String> = config.lines().map(|s| s.to_owned()).collect();
    assert_eq!(chunksize_by_config(&config_lines).unwrap(), 128);
}

#[test]
fn test_chunksize_by_config_i128() {
    let config = "Field:i128";
    let config_lines: Vec<String> = config.lines().map(|s| s.to_owned()).collect();
    assert_eq!(chunksize_by_config(&config_lines).unwrap(), 128);
}

#[test]
fn test_chunksize_by_config_string4() {
    let config = "Field:string:4";
    let config_lines: Vec<String> = config.lines().map(|s| s.to_owned()).collect();
    assert_eq!(chunksize_by_config(&config_lines).unwrap(), (4 * 8));
}

#[test]
fn test_chunksize_by_config_string8() {
    let config = "Field:string:8";
    let config_lines: Vec<String> = config.lines().map(|s| s.to_owned()).collect();
    assert_eq!(chunksize_by_config(&config_lines).unwrap(), (8 * 8));
}

#[test]
fn test_chunksize_by_config_stringlong() {
    let config = "Field:string:32000";
    let config_lines: Vec<String> = config.lines().map(|s| s.to_owned()).collect();
    assert_eq!(chunksize_by_config(&config_lines).unwrap(), (32000 * 8));
}

#[test]
fn test_chunksize_by_config_bytegap4() {
    let config = "Field:bytegap:4";
    let config_lines: Vec<String> = config.lines().map(|s| s.to_owned()).collect();
    assert_eq!(chunksize_by_config(&config_lines).unwrap(), (4 * 8));
}

#[test]
fn test_chunksize_by_config_bytegap8() {
    let config = "Field:bytegap:8";
    let config_lines: Vec<String> = config.lines().map(|s| s.to_owned()).collect();
    assert_eq!(chunksize_by_config(&config_lines).unwrap(), (8 * 8));
}

#[test]
fn test_chunksize_by_config_bytegaplong() {
    let config = "Field:bytegap:32000";
    let config_lines: Vec<String> = config.lines().map(|s| s.to_owned()).collect();
    assert_eq!(chunksize_by_config(&config_lines).unwrap(), (32000 * 8));
}

#[test]
fn test_chunksize_by_config_bitgap4() {
    let config = "Field:bitgap:4";
    let config_lines: Vec<String> = config.lines().map(|s| s.to_owned()).collect();
    assert_eq!(chunksize_by_config(&config_lines).unwrap(), 4);
}

#[test]
fn test_chunksize_by_config_bitgap8() {
    let config = "Field:bitgap:8";
    let config_lines: Vec<String> = config.lines().map(|s| s.to_owned()).collect();
    assert_eq!(chunksize_by_config(&config_lines).unwrap(), 8);
}

#[test]
fn test_chunksize_by_config_bitgaplong() {
    let config = "Field:bitgap:32000";
    let config_lines: Vec<String> = config.lines().map(|s| s.to_owned()).collect();
    assert_eq!(chunksize_by_config(&config_lines).unwrap(), 32000);
}

#[test]
fn test_chunksize_by_config_iarb() {
    let config = "Field:iarb:7";
    let config_lines: Vec<String> = config.lines().map(|s| s.to_owned()).collect();
    assert_eq!(chunksize_by_config(&config_lines).unwrap(), 7);
}

#[test]
fn test_chunksize_by_config_uarb() {
    let config = "Field:uarb:7";
    let config_lines: Vec<String> = config.lines().map(|s| s.to_owned()).collect();
    assert_eq!(chunksize_by_config(&config_lines).unwrap(), 7);
}

#[test]
fn test_chunksize_by_config_case_insensitive() {
    let config = "Field:bOoL8";
    let config_lines: Vec<String> = config.lines().map(|s| s.to_owned()).collect();
    assert_eq!(chunksize_by_config(&config_lines).unwrap(), 8);
}

#[test]
fn test_chunksize_by_config_sum() {
    let config = "Field0(bool1):bool1
Field1(bool1):bool1
Field2(bool1):bool1
Field3(bool1):bool1
Field4(bool1):bool1
Field5(bool1):bool1
Field6(bool1):bool1
Field7(bool1):bool1
Field8(bool8):bool8
Two_Bytegap(bytegap2):bytegap:2
Four_Bitgap(bitgap4):bitgap:4
Field9(u8):u8
Field10(u16):u16
Field11(i32):i32
Field12(String4):String:4
Field13(iarb7):iarb:7
Field14(uarb4):uarb:4"; // should sum up to 135 bits
    let config_lines: Vec<String> = config.lines().map(|s| s.to_owned()).collect();
    assert_eq!(chunksize_by_config(&config_lines).unwrap(), 135);
}

#[test]
fn test_parse_config_line_simple() {
    let conf_line = "Testfield:u8";
    let parsed_line = parse_config_line(conf_line).unwrap();
    assert_eq!(parsed_line.0, "Testfield");
    assert_eq!(parsed_line.1, "u8");
    assert_eq!(parsed_line.2, Format::Norm);
}

#[test]
fn test_parse_config_line_len() {
    let conf_line = "Testfield:STriNg:4";
    let parsed_line = parse_config_line(conf_line).unwrap();
    assert_eq!(parsed_line.0, "Testfield");
    assert_eq!(parsed_line.1, "STriNg");
    assert_eq!(parsed_line.3, 4);
}

#[test]
fn test_parse_config_line_h() {
    let conf_line = "Testfield:u16:h";
    let parsed_line = parse_config_line(conf_line).unwrap();
    assert_eq!(parsed_line.0, "Testfield");
    assert_eq!(parsed_line.1, "u16");
    assert_eq!(parsed_line.2, Format::Hex);
}

#[test]
fn test_parse_config_line_hex() {
    let conf_line = "Testfield:u16:hex";
    let parsed_line = parse_config_line(conf_line).unwrap();
    assert_eq!(parsed_line.0, "Testfield");
    assert_eq!(parsed_line.1, "u16");
    assert_eq!(parsed_line.2, Format::Hex);
}

#[test]
fn test_parse_config_line_hexadecimal() {
    let conf_line = "Testfield:u16:hexadecimal";
    let parsed_line = parse_config_line(conf_line).unwrap();
    assert_eq!(parsed_line.0, "Testfield");
    assert_eq!(parsed_line.1, "u16");
    assert_eq!(parsed_line.2, Format::Hex);
}

#[test]
fn test_parse_config_line_b() {
    let conf_line = "Testfield:u16:b";
    let parsed_line = parse_config_line(conf_line).unwrap();
    assert_eq!(parsed_line.0, "Testfield");
    assert_eq!(parsed_line.1, "u16");
    assert_eq!(parsed_line.2, Format::Bin);
}

#[test]
fn test_parse_config_line_binary() {
    let conf_line = "Testfield:u16:binary";
    let parsed_line = parse_config_line(conf_line).unwrap();
    assert_eq!(parsed_line.0, "Testfield");
    assert_eq!(parsed_line.1, "u16");
    assert_eq!(parsed_line.2, Format::Bin);
}

#[test]
fn test_parse_config_line_unknown_format() {
    // if the format is unknown, Format::Norm should be returned
    let conf_line = "Testfield:u16:dunno";
    let parsed_line = parse_config_line(conf_line).unwrap();
    assert_eq!(parsed_line.0, "Testfield");
    assert_eq!(parsed_line.1, "u16");
    assert_eq!(parsed_line.2, Format::Norm);
}

#[test]
fn test_parse_config_line_missing_separator() {
    let parsed = parse_config_line("nocolonhere");
    assert_eq!(parsed, Err(SchemaError::MissingSeparator));
}

#[test]
fn test_parse_config_line_comment_stripped() {
    let parsed = parse_config_line("Name:u8 # trailing words").unwrap();
    assert_eq!(parsed.0, "Name");
    assert_eq!(parsed.1, "u8");
}

#[test]
fn test_chunksize_by_config_bad_line() {
    let config_lines: Vec<String> = vec!["Good:u8".to_owned(), "bad line".to_owned()];
    assert_eq!(
        chunksize_by_config(&config_lines),
        Err(SchemaError::MissingSeparator)
    );
}

#[test]
fn test_chunksize_by_config_unknown_kind_counts_zero() {
    let config_lines: Vec<String> = vec!["A:u16".to_owned(), "B:mystery".to_owned()];
    assert_eq!(chunksize_by_config(&config_lines).unwrap(), 16);
}

#[test]
fn test_filter_config_lines_drops_comments_and_blanks() {
    let lines: Vec<String> = vec![
        "# a comment".to_owned(),
        "Field:u8".to_owned(),
        "".to_owned(),
        "Other:u16:h".to_owned(),
    ];
    let kept = filter_config_lines(lines);
    assert_eq!(kept, vec!["Field:u8".to_owned(), "Other:u16:h".to_owned()]);
}

#[test]
fn test_unknown_kind_lines() {
    // lines with a separator but an unrecognized kind token are
    // reported by position; unparseable lines are a different fault
    let config_lines: Vec<String> = vec![
        "A:u16".to_owned(),
        "B:mystery".to_owned(),
        "noseparator".to_owned(),
        "C:wat:4".to_owned(),
    ];
    assert_eq!(unknown_kind_lines(&config_lines), vec![1, 3]);
}

#[test]
fn test_unknown_kind_lines_empty_for_clean_schema() {
    let config_lines: Vec<String> = vec!["A:u16".to_owned(), "B:bitgap:3".to_owned()];
    assert_eq!(unknown_kind_lines(&config_lines), Vec::<usize>::new());
}

#[test]
fn test_schema_error_message() {
    let e = SchemaError::MissingSeparator;
    assert_eq!(
        e.message(),
        "Syntax error in config, could not find : in line."
    );
}
