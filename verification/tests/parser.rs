use nmea0183::{Message, Parser, SentenceFormatter};

const STREAM: &[u8] = b"blablabla$GPGLL,4717.11364,N,00833.91565,E,092321.00,A,A*60\r\n\
$GPGGA,092725.00,4717.11399,N,00833.91590,E,1,08,1.01,499.6,M,48.0,M,,*5B\r\n\
$GNGNS,103600.01,5114.51176,N,00012.29380,W,ANNN,07,1.18,111.5,45.6,,,V*00\r\n\
$GPRMC,083559.00,A,4717.11437,N,00833.91522,E,0.004,77.52,091202,,,A,V*2D\r\n\
$GPGLL,4717.11364,N,00833.91565,E,092321.00,A,A*60\r\n";

const GGA_LINE: &[u8] =
    b"$GPGGA,092725.00,4717.11399,N,00833.91590,E,1,08,1.01,499.6,M,48.0,M,,*5B\r\n";

#[test]
fn test_parser() {
    let bytes = STREAM;
    let mut parser = Parser::new();
    {
        let messages = parser.parse_bytes(bytes);
        assert_eq!(3, messages.len());
        match &messages[0] {
            Message::GGA(gga) => assert_eq!("499.6#1", gga.altitude.to_text()),
            _ => panic!(),
        }
        match &messages[1] {
            Message::GNS(gns) => assert_eq!("111.5#1", gns.altitude.to_text()),
            _ => panic!(),
        }
        match &messages[2] {
            Message::RMC(rmc) => assert_eq!("0.4#3", rmc.speed.to_text()),
            _ => panic!(),
        }
    }

    assert!(parser.parse_bytes(&bytes[0..64]).is_empty());
    assert!(parser.parse_bytes(&bytes[64..128]).is_empty());
    {
        let results = parser.parse_bytes(&bytes[128..192]);
        assert_eq!(1, results.len());
    }
    {
        let results = parser.parse_bytes(&bytes[192..256]);
        assert_eq!(1, results.len());
    }
    {
        let results = parser.parse_bytes(&bytes[256..320]);
        assert_eq!(1, results.len());
    }
}

#[test]
fn single_gga_line_decodes() {
    let mut parser = Parser::new();
    let messages = parser.parse_bytes(GGA_LINE);
    assert_eq!(1, messages.len());
    match &messages[0] {
        Message::GGA(gga) => {
            assert_eq!(499, gga.altitude.integer());
            assert_eq!(6, gga.altitude.decimal());
            assert_eq!(1, gga.altitude.decimal_length());
        },
        _ => panic!(),
    }
}

#[test]
fn split_after_byte_thirty() {
    let mut whole = Parser::new();
    let expected = whole.parse_bytes(GGA_LINE);
    assert_eq!(1, expected.len());

    let mut split = Parser::new();
    assert!(split.parse_bytes(&GGA_LINE[..30]).is_empty());
    let second = split.parse_bytes(&GGA_LINE[30..]);
    assert_eq!(1, second.len());
    match (&expected[0], &second[0]) {
        (Message::GGA(a), Message::GGA(b)) => {
            assert_eq!(a.time.to_text(), b.time.to_text());
            assert_eq!(a.latitude.0, b.latitude.0);
            assert_eq!(a.longitude.0, b.longitude.0);
            assert_eq!(a.num_satellites, b.num_satellites);
            assert_eq!(a.hdop, b.hdop);
            assert_eq!(a.altitude, b.altitude);
        },
        _ => panic!(),
    }
}

#[test]
fn corrupted_checksum_drops_line() {
    let mut line = GGA_LINE.to_vec();
    let star = line.iter().position(|&b| b == b'*').unwrap();
    line[star + 1] = b'0';
    line[star + 2] = b'0';
    let mut parser = Parser::new();
    assert!(parser.parse_bytes(&line).is_empty());
}

#[test]
fn corrupted_checksum_does_not_contaminate_next_line() {
    let mut bad = GGA_LINE.to_vec();
    let star = bad.iter().position(|&b| b == b'*').unwrap();
    bad[star + 1] = b'0';
    bad[star + 2] = b'0';
    let mut parser = Parser::new();
    assert!(parser.parse_bytes(&bad).is_empty());
    let after = parser.parse_bytes(GGA_LINE);
    assert_eq!(1, after.len());
    assert!(matches!(after[0], Message::GGA(_)));
}

#[test]
fn fresh_parsers_agree_on_the_same_chunk() {
    let mut first = Parser::new();
    let mut second = Parser::new();
    let a = first.parse_bytes(STREAM);
    let b = second.parse_bytes(STREAM);
    assert_eq!(a.len(), b.len());
    for (x, y) in a.iter().zip(b.iter()) {
        assert_eq!(tag(x), tag(y));
    }
}

fn tag(m: &Message) -> u8 {
    match m {
        Message::GNS(_) => 0,
        Message::GGA(_) => 1,
        Message::GSA(_) => 2,
        Message::RMC(_) => 3,
    }
}

#[test]
fn every_split_point_yields_the_same_messages() {
    let chunk = &STREAM[61..];  // the well-framed tail: four whole sentences
    let mut reference = Parser::new();
    let expected = reference.parse_bytes(chunk);
    assert_eq!(3, expected.len());
    for k in 0..=chunk.len() {
        let mut parser = Parser::new();
        let mut got = parser.parse_bytes(&chunk[..k]);
        got.extend(parser.parse_bytes(&chunk[k..]));
        assert_eq!(expected.len(), got.len());
        for (x, y) in expected.iter().zip(got.iter()) {
            assert_eq!(tag(x), tag(y));
        }
    }
}

#[test]
fn repeating_a_chunk_repeats_its_messages() {
    let mut parser = Parser::new();
    let first = parser.parse_bytes(GGA_LINE);
    let second = parser.parse_bytes(GGA_LINE);
    assert_eq!(first.len(), second.len());
    match (&first[0], &second[0]) {
        (Message::GGA(a), Message::GGA(b)) => {
            assert_eq!(a.altitude, b.altitude);
            assert_eq!(a.time.to_text(), b.time.to_text());
        },
        _ => panic!(),
    }
}

#[test]
fn overflowing_fragment_recovers_on_next_line() {
    let junk = [b'x'; 100];
    let mut parser = Parser::new();
    assert!(parser.parse_bytes(&junk).is_empty());
    let after = parser.parse_bytes(GGA_LINE);
    assert_eq!(1, after.len());
    assert!(matches!(after[0], Message::GGA(_)));
}

#[test]
fn disabled_type_is_dropped() {
    let mut parser = Parser::with_enables(&[SentenceFormatter::RMC, SentenceFormatter::GSA]);
    assert!(parser.parse_bytes(GGA_LINE).is_empty());

    let mut enabled = Parser::with_enables(&[SentenceFormatter::GGA, SentenceFormatter::GGA]);
    let messages = enabled.parse_bytes(GGA_LINE);
    assert_eq!(1, messages.len());
    assert!(matches!(messages[0], Message::GGA(_)));
}

#[test]
fn unterminated_fragment_is_kept_pending() {
    let mut parser = Parser::new();
    assert!(parser.parse_bytes(&GGA_LINE[..20]).is_empty());
    assert!(parser.parse_bytes(&GGA_LINE[20..40]).is_empty());
    let rest = parser.parse_bytes(&GGA_LINE[40..]);
    assert_eq!(1, rest.len());
}

#[test]
fn unknown_code_is_dropped() {
    let mut parser = Parser::new();
    let messages = parser.parse_bytes(b"$GPGLL,4717.11364,N,00833.91565,E,092321.00,A,A*60\r\n");
    assert!(messages.is_empty());
}
