use nmea0183::message::Message;
use nmea0183::scan::{
    find_first, find_last, parse_hex_u8_bytes, parse_i32_bytes, parse_u32_bytes, parse_u8_bytes,
    split_bytes, xor_fold,
};
use nmea0183::types::date::Date;
use nmea0183::types::latitude::Latitude;
use nmea0183::types::longitude::Longitude;
use nmea0183::types::time::Time;
use nmea0183::types::IntegerDecimal;
use nmea0183::SentenceFormatter;

#[test]
fn integer_decimal_parses_exactly() {
    let v = IntegerDecimal::from_bytes(b"1.01");
    assert_eq!(101, v.combined());
    assert_eq!(2, v.decimal_length());
    assert_eq!(100, v.exp());
    assert_eq!(1, v.integer());
    assert_eq!(1, v.decimal());
    assert_eq!("1.1#2", v.to_text());

    let v = IntegerDecimal::from_bytes(b"499.6");
    assert_eq!(4996, v.combined());
    assert_eq!(499, v.integer());
    assert_eq!(6, v.decimal());
    assert_eq!("499.6#1", v.to_text());

    let v = IntegerDecimal::from_bytes(b"0.004");
    assert_eq!(4, v.combined());
    assert_eq!("0.4#3", v.to_text());
}

#[test]
fn integer_decimal_tolerates_bad_fields() {
    let empty = IntegerDecimal::from_bytes(b"");
    assert_eq!(0, empty.combined());
    assert_eq!(0, empty.decimal_length());

    let garbage = IntegerDecimal::from_bytes(b"abc");
    assert_eq!(0, garbage.combined());

    let long = IntegerDecimal::from_bytes(b"1.1234567890123");
    assert_eq!(9, long.decimal_length());
    assert_eq!(1123456789, long.combined());
}

#[test]
fn integer_decimal_negative_values() {
    let v = IntegerDecimal::from_bytes(b"-12.5");
    assert_eq!(-125, v.combined());
    assert_eq!(-12, v.integer());
    assert_eq!(-5, v.decimal());
    assert_eq!("-12.-5#1", v.to_text());
}

#[test]
fn integer_decimal_construction() {
    let mut v = IntegerDecimal::new(305, 2);
    assert_eq!(305, v.combined());
    v.add_whole(180);
    assert_eq!(18305, v.combined());
    assert_eq!(2, v.decimal_length());
}

#[test]
fn time_field_decodes() {
    let t = Time::from_bytes(b"083559.00");
    assert_eq!(8, t.hour);
    assert_eq!(35, t.minute);
    assert_eq!(59, t.seconds);
    assert_eq!(0, t.sub_seconds);
    assert_eq!("08:35:59.00", t.to_text());

    let no_dot = Time::from_bytes(b"083559");
    assert_eq!("00:00:00.00", no_dot.to_text());
    let empty = Time::from_bytes(b"");
    assert_eq!(0, empty.hour);
}

#[test]
fn date_field_decodes() {
    let d = Date::from_bytes(b"091202");
    assert_eq!(9, d.day);
    assert_eq!(12, d.month);
    assert_eq!(2, d.year);
    assert_eq!("021209", d.to_text());

    let empty = Date::from_bytes(b"");
    assert_eq!("000000", empty.to_text());
}

#[test]
fn latitude_components() {
    let lat = Latitude::from_bytes(b"4717.11399");
    assert_eq!(471711399, lat.0);
    assert_eq!(47, lat.degrees());
    assert_eq!(17, lat.minutes());
    assert_eq!(11, lat.seconds());
    assert_eq!(399, lat.sub_seconds());
    assert!(lat.is_north());
    assert!(!lat.is_south());

    let south = Latitude(-471711399);
    assert_eq!(47, south.degrees());
    assert!(south.is_south());
}

#[test]
fn longitude_components() {
    let lon = Longitude::from_bytes(b"00833.91590");
    assert_eq!(83391590, lon.0);
    assert_eq!(8, lon.degrees());
    assert_eq!(33, lon.minutes());
    assert_eq!(91, lon.seconds());
    assert_eq!(590, lon.sub_seconds());
    assert!(lon.is_east());

    let west = Longitude(-83391590);
    assert!(west.is_west());
    assert_eq!("W008\u{b0}33'91\"590", west.to_text());
}

#[test]
fn formatter_lookup_is_exact() {
    assert!(matches!(SentenceFormatter::try_from(b"GGA"), Some(SentenceFormatter::GGA)));
    assert!(matches!(SentenceFormatter::try_from(b"GNS"), Some(SentenceFormatter::GNS)));
    assert!(matches!(SentenceFormatter::try_from(b"GSA"), Some(SentenceFormatter::GSA)));
    assert!(matches!(SentenceFormatter::try_from(b"RMC"), Some(SentenceFormatter::RMC)));
    assert!(SentenceFormatter::try_from(b"GLL").is_none());
    assert!(SentenceFormatter::try_from(b"gga").is_none());
    assert!(SentenceFormatter::try_from(b"GG").is_none());
    assert!(SentenceFormatter::try_from(b"GGAX").is_none());
}

#[test]
fn message_validation() {
    let interior = b"GPGGA,092725.00,4717.11399,N,00833.91590,E,1,08,1.01,499.6,M,48.0,M,,*5B";
    assert!(matches!(Message::try_from(&interior[..]), Some(Message::GGA(_))));

    let bad_checksum =
        b"GPGGA,092725.00,4717.11399,N,00833.91590,E,1,08,1.01,499.6,M,48.0,M,,*00";
    assert!(Message::try_from(&bad_checksum[..]).is_none());

    // without a comma the payload cannot be split into address and fields
    assert!(Message::try_from(b"GPGGA*56").is_none());

    // a missing checksum delimiter reads as checksum zero, so a payload
    // whose XOR fold is zero still gets through
    assert!(matches!(Message::try_from(b"GPGGA,z"), Some(Message::GGA(_))));
    assert!(Message::try_from(b"GPGGA,y").is_none());

    // an unrecognized code is dropped even with a valid checksum
    let unknown = b"GPGLL,4717.11364,N,00833.91565,E,092321.00,A,A*60";
    assert!(Message::try_from(&unknown[..]).is_none());
}

#[test]
fn decimal_parsers_match_std() {
    assert_eq!(Some(12), parse_u32_bytes(b"12"));
    assert_eq!(Some(12), parse_u32_bytes(b"+12"));
    assert_eq!(Some(0), parse_u32_bytes(b"000"));
    assert_eq!(None, parse_u32_bytes(b""));
    assert_eq!(None, parse_u32_bytes(b"+"));
    assert_eq!(None, parse_u32_bytes(b"1x"));
    assert_eq!(Some(4294967295), parse_u32_bytes(b"4294967295"));
    assert_eq!(None, parse_u32_bytes(b"4294967296"));

    assert_eq!(Some(8), parse_u8_bytes(b"08"));
    assert_eq!(None, parse_u8_bytes(b"256"));

    assert_eq!(Some(-5), parse_i32_bytes(b"-5"));
    assert_eq!(Some(5), parse_i32_bytes(b"+5"));
    assert_eq!(Some(-2147483648), parse_i32_bytes(b"-2147483648"));
    assert_eq!(None, parse_i32_bytes(b"2147483648"));
    assert_eq!(None, parse_i32_bytes(b"-"));
}

#[test]
fn hex_parser_matches_std() {
    assert_eq!(Some(0x5B), parse_hex_u8_bytes(b"5B"));
    assert_eq!(Some(0x5b), parse_hex_u8_bytes(b"5b"));
    assert_eq!(Some(0), parse_hex_u8_bytes(b"00"));
    assert_eq!(Some(255), parse_hex_u8_bytes(b"FF"));
    assert_eq!(None, parse_hex_u8_bytes(b"100"));
    assert_eq!(None, parse_hex_u8_bytes(b""));
    assert_eq!(None, parse_hex_u8_bytes(b"5G"));
}

#[test]
fn checksum_fold_and_delimiters() {
    assert_eq!(0, xor_fold(b""));
    assert_eq!(b'A' ^ b'B' ^ b'C', xor_fold(b"ABC"));

    assert_eq!(Some(2), find_first(b"ab,cd,e", b','));
    assert_eq!(Some(5), find_last(b"ab,cd,e", b','));
    assert_eq!(None, find_first(b"abc", b','));
    assert_eq!(None, find_last(b"abc", b','));
}

#[test]
fn split_bytes_keeps_every_piece() {
    let pieces = split_bytes(b"a,b,,c", b',');
    assert_eq!(4, pieces.len());
    assert_eq!(b"a".to_vec(), pieces[0]);
    assert_eq!(b"b".to_vec(), pieces[1]);
    assert!(pieces[2].is_empty());
    assert_eq!(b"c".to_vec(), pieces[3]);

    let trailing = split_bytes(b"a,", b',');
    assert_eq!(2, trailing.len());
    assert!(trailing[1].is_empty());
}
