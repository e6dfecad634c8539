use l4::net::{parse_endpoint, parse_ipv4, parse_mac, resolve_mac, EndpointError, Ipv4Addr, MacError};
use l4::text::{
    chars_of, parse_unsigned, push_decimal, same_text, split, split_fields, split_lines, string_of, Separator,
};

fn ip(a: u8, b: u8, c: u8, d: u8) -> Ipv4Addr {
    Ipv4Addr::new(a, b, c, d)
}

fn parse(s: &str) -> Option<Ipv4Addr> {
    parse_ipv4(&chars_of(s))
}

fn strings(parts: &[Vec<char>]) -> Vec<String> {
    parts.iter().map(|p| string_of(p)).collect()
}

#[test]
fn addresses_are_numbers_in_host_order() {
    assert_eq!(ip(172, 18, 0, 10).to_bits(), 0xAC12_000A);
    assert_eq!(ip(255, 255, 255, 255).to_bits(), u32::MAX);
}

#[test]
fn dotted_decimal_is_parsed() {
    assert_eq!(parse("172.18.0.10"), Some(ip(172, 18, 0, 10)));
    assert_eq!(parse("0.0.0.0"), Some(ip(0, 0, 0, 0)));
    assert_eq!(parse("255.255.255.255"), Some(ip(255, 255, 255, 255)));
}

#[test]
fn anything_else_is_no_address() {
    for s in [
        "", "1.2.3", "1.2.3.4.5", "1.2.3.256", "1.2.3.", ".1.2.3", "1..2.3", "01.2.3.4", "1.2.3.00", "+1.2.3.4",
        "1.2.3.-4", " 1.2.3.4", "1.2.3.4 ", "1.2.3.4a", "0x1.2.3.4", "1.2.3.1000",
    ] {
        assert_eq!(parse(s), None, "{s:?}");
    }
}

#[test]
fn addresses_agree_with_the_standard_parser() {
    for s in ["1.2.3.4", "01.2.3.4", "0.0.0.0", "1.2.3", "255.255.255.256", "9.99.100.255", "", "1.2.3.4.5", "1.2.3.0"] {
        let standard: Option<core::net::Ipv4Addr> = s.parse().ok();
        assert_eq!(parse(s).map(|a| a.to_bits()), standard.map(u32::from), "{s:?}");
    }
}

#[test]
fn written_addresses_read_back() {
    for addr in [ip(0, 0, 0, 0), ip(1, 20, 255, 9), ip(100, 10, 0, 255)] {
        let mut text = String::new();
        addr.push_text(&mut text);
        assert_eq!(parse(&text), Some(addr));
    }
    let mut text = "at ".to_string();
    ip(1, 20, 255, 9).push_text(&mut text);
    assert_eq!(text, "at 1.20.255.9");
}

#[test]
fn endpoints_carry_an_optional_port() {
    assert_eq!(parse_endpoint("1.2.3.4"), Ok((ip(1, 2, 3, 4), None)));
    assert_eq!(parse_endpoint("1.2.3.4:3000"), Ok((ip(1, 2, 3, 4), Some(3000))));
    assert_eq!(parse_endpoint("1.2.3.4:0"), Ok((ip(1, 2, 3, 4), Some(0))));
    assert_eq!(parse_endpoint("1.2.3.4:+65535"), Ok((ip(1, 2, 3, 4), Some(65535))));
}

#[test]
fn bad_endpoints_are_told_apart() {
    for s in ["1.2.3.4:", "1.2.3.4:65536", "1.2.3.4:http", "1.2.3.4:-1", "1.2.3.4:+"] {
        assert_eq!(parse_endpoint(s), Err(EndpointError::BadPort), "{s:?}");
    }
    for s in ["", ":80", "host:80", "1.2.3:80", "1.2.3.4:1:2", "::1", "localhost"] {
        assert_eq!(parse_endpoint(s), Err(EndpointError::BadIpv4), "{s:?}");
    }
}

#[test]
fn mac_addresses_are_six_hexadecimal_octets() {
    assert_eq!(parse_mac("02:42:ac:12:00:0a"), Ok([0x02, 0x42, 0xAC, 0x12, 0x00, 0x0A]));
    assert_eq!(parse_mac("FF:fF:0:1:+2:00f"), Ok([0xFF, 0xFF, 0, 1, 2, 15]));
}

#[test]
fn bad_mac_addresses_are_told_apart() {
    assert_eq!(parse_mac("02:42:ac:12:00"), Err(MacError::TooFewOctets));
    assert_eq!(parse_mac("02:42:ac:12:00:0a:ff"), Err(MacError::TooManyOctets));
    assert_eq!(parse_mac("02:42:ac:12:00:0a:"), Err(MacError::TooManyOctets));
    assert_eq!(parse_mac(""), Err(MacError::BadOctet { slot: 0 }));
    assert_eq!(parse_mac("02:42:xx:12:00:0a"), Err(MacError::BadOctet { slot: 2 }));
    assert_eq!(parse_mac("02:42:ac:12:00:100"), Err(MacError::BadOctet { slot: 5 }));
    assert_eq!(parse_mac("02::ac:12:00:0a"), Err(MacError::BadOctet { slot: 1 }));
    assert_eq!(parse_mac("02-42-ac-12-00-0a"), Err(MacError::BadOctet { slot: 0 }));
}

const ARP: &str = "IP address       HW type     Flags       HW address            Mask     Device\n\
10.0.0.1         0x1         0x2         02:42:ac:12:00:01     *        eth0\n\
10.0.0.2         0x1         0x0         00:00:00:00:00:00     *        eth0\n\
10.0.0.2         0x1         0x2         02:42:ac:12:00:02     *        eth1\n\
10.0.0.3         0x1         0x2         garbage               *        eth0\n\
10.0.0.4         0x1\n\
10.0.0.4         0x1         0x2         02:42:ac:12:00:04     *        eth0\n\
\n\
10.0.0.5         0x1         0x2         02:42:ac:12:00:05     *        eth0\n";

#[test]
fn neighbours_are_looked_up() {
    assert_eq!(resolve_mac(Some(ARP), ip(10, 0, 0, 1)), Some([2, 0x42, 0xAC, 0x12, 0, 1]));
    // The unresolved entry is passed over.
    assert_eq!(resolve_mac(Some(ARP), ip(10, 0, 0, 2)), Some([2, 0x42, 0xAC, 0x12, 0, 2]));
    // An unreadable one is passed over, too, but there is no other.
    assert_eq!(resolve_mac(Some(ARP), ip(10, 0, 0, 3)), None);
    // A line that is cut short is passed over, and so is an empty one.
    assert_eq!(resolve_mac(Some(ARP), ip(10, 0, 0, 4)), Some([2, 0x42, 0xAC, 0x12, 0, 4]));
    assert_eq!(resolve_mac(Some(ARP), ip(10, 0, 0, 5)), Some([2, 0x42, 0xAC, 0x12, 0, 5]));
    assert_eq!(resolve_mac(Some(ARP), ip(10, 0, 0, 9)), None);
    assert_eq!(resolve_mac(None, ip(10, 0, 0, 1)), None);
    assert_eq!(resolve_mac(Some(""), ip(10, 0, 0, 1)), None);
}

#[test]
fn the_heading_of_the_neighbour_table_is_skipped() {
    let line = "10.0.0.1 0x1 0x2 02:42:ac:12:00:01 * eth0";
    assert_eq!(resolve_mac(Some(line), ip(10, 0, 0, 1)), None);
    let text = format!("heading\r\n{line}\r\n");
    assert_eq!(resolve_mac(Some(&text), ip(10, 0, 0, 1)), Some([2, 0x42, 0xAC, 0x12, 0, 1]));
}

#[test]
fn text_is_split_like_the_standard_library_does() {
    for s in ["", "a", "a:b", ":a:", "::", "a b\tc\r\n d\u{a0}e\u{3000}f ", "x\r\ny\nz", "x\n\n", "\r", "a\r\r\nb\r"] {
        let chars = chars_of(s);
        let by_colon: Vec<&str> = s.split(':').collect();
        assert_eq!(strings(&split(&chars, Separator::Char { c: ':' })), by_colon);
        let words: Vec<&str> = s.split_whitespace().collect();
        assert_eq!(strings(&split_fields(&chars)), words);
        let lines: Vec<&str> = s.lines().collect();
        assert_eq!(strings(&split_lines(&chars)), lines);
    }
}

#[test]
fn white_space_is_that_of_unicode() {
    for v in 0..=0x3100u32 {
        if let Some(c) = char::from_u32(v) {
            let pieces = split(&[c], Separator::Whitespace);
            assert_eq!(pieces.len() == 2, c.is_whitespace(), "{v:#x}");
        }
    }
}

#[test]
fn numbers_agree_with_the_standard_parser() {
    for s in ["", "0", "7", "+7", "-7", "++7", "65535", "65536", "00012", "1a", "99999999999999999999", "+"] {
        let n = parse_unsigned(&chars_of(s), 10, 65535);
        assert_eq!(n, s.parse::<u16>().ok().map(u32::from), "{s:?}");
    }
    for s in ["", "f", "FF", "100", "0x1", "g", "+a", "0ff"] {
        let n = parse_unsigned(&chars_of(s), 16, 255);
        assert_eq!(n, u8::from_str_radix(s, 16).ok().map(u32::from), "{s:?}");
    }
}

#[test]
fn decimal_output_agrees_with_the_standard_formatter() {
    for n in [0u64, 7, 10, 99, 100, 65535, u64::MAX] {
        let mut out = "n=".to_string();
        push_decimal(&mut out, n);
        assert_eq!(out, format!("n={n}"));
    }
}

#[test]
fn texts_are_compared_by_content() {
    assert!(same_text(&chars_of("abc"), "abc"));
    assert!(!same_text(&chars_of("abc"), "abd"));
    assert!(!same_text(&chars_of("abc"), "ab"));
    assert!(same_text(&[], ""));
}
