use d88fileio::dump::{hex, hex_bytes, hex_offset};
use d88fileio::position::{get_str_to_u8, Position};
use d88fileio::text::decimal;

#[test]
fn parse_u8_values() {
    assert_eq!(get_str_to_u8("0", "x"), Ok(0));
    assert_eq!(get_str_to_u8("255", "x"), Ok(255));
    assert_eq!(get_str_to_u8("+7", "x"), Ok(7));
    assert_eq!(get_str_to_u8("007", "x"), Ok(7));
    assert_eq!(get_str_to_u8("256", "Not Track Number"), Err("256? Not Track Number".to_string()));
    assert_eq!(get_str_to_u8("", "e"), Err("? e".to_string()));
    assert_eq!(get_str_to_u8("+", "e"), Err("+? e".to_string()));
    assert_eq!(get_str_to_u8("-1", "e"), Err("-1? e".to_string()));
    assert_eq!(get_str_to_u8(" 1", "e"), Err(" 1? e".to_string()));
    assert_eq!(get_str_to_u8("1000000", "e"), Err("1000000? e".to_string()));
    assert_eq!(get_str_to_u8("１", "e"), Err("１? e".to_string()));
}

#[test]
fn parse_position() {
    assert_eq!(Position::parse("1,0,3"), Ok(Position { track: 1, side: 0, sector: 2 }));
    assert_eq!(Position::parse("39,1,16,x"), Ok(Position { track: 39, side: 1, sector: 15 }));
    assert!(Position::parse("1,0,0").is_err());
    assert!(Position::parse("1,0").is_err());
    assert!(Position::parse("").is_err());
    assert_eq!(Position::parse("1,z,3"), Err("z? Not Side Number".to_string()));
    assert_eq!(Position::parse("x,0,3"), Err("x? Not Track Number".to_string()));
    assert_eq!(Position::parse("1,0,300"), Err("300? Not Sector Number".to_string()));
}

#[test]
fn decimal_text() {
    assert_eq!(decimal(0), "0");
    assert_eq!(decimal(9), "9");
    assert_eq!(decimal(10), "10");
    assert_eq!(decimal(348848), "348848");
    assert_eq!(decimal(u64::MAX), "18446744073709551615");
}

#[test]
fn hex_text() {
    assert_eq!(hex_offset(0), "00000");
    assert_eq!(hex_offset(0x2b0), "002b0");
    assert_eq!(hex_offset(0x123456), "123456");
    assert_eq!(hex(0xab, 2), "ab");
    assert_eq!(hex(5, 2), "05");
    assert_eq!(hex(0, 0), "0");
    assert_eq!(hex_bytes(&[0x00, 0x1f, 0xff, 0x41], 3), "00 1f ff ");
    assert_eq!(hex_bytes(&[1, 2], 0), "");
}
