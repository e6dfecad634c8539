use l4::common::Node;
use l4::packet::{
    hash_flow, is_malformed, parse_frame, rewrite_frame, Flow, Parsed, ETHER_TYPE_IPV4, ETH_LEN, FIN, IPV4_LEN,
    PROTO_TCP, PROTO_UDP, PSH, RST, SYN, TCP_LEN, UDP_LEN, URG,
};
use network_types::eth::{EthHdr, EtherType};
use network_types::ip::{IpProto, Ipv4Hdr};
use network_types::tcp::TcpHdr;
use network_types::udp::UdpHdr;

const ACK: u8 = 0x10;

fn ones_sum(bytes: &[u8]) -> u32 {
    let mut sum = 0u32;
    for pair in bytes.chunks(2) {
        sum += u32::from(pair[0]) << 8;
        if pair.len() > 1 {
            sum += u32::from(pair[1]);
        }
    }
    while sum > 0xFFFF {
        sum = (sum & 0xFFFF) + (sum >> 16);
    }
    sum
}

/// The sum of a TCP/UDP segment and its pseudo-header; `0xFFFF` if it verifies.
fn segment_sum(frame: &[u8]) -> u32 {
    let off = 14 + 4 * usize::from(frame[14] & 0x0F);
    let mut covered = frame[26..34].to_vec();
    covered.extend_from_slice(&[0, frame[23]]);
    covered.extend_from_slice(&((frame.len() - off) as u16).to_be_bytes());
    covered.extend_from_slice(&frame[off..]);
    ones_sum(&covered)
}

/// The frame with `options` put behind its IPv4 header, whose checksum is brought
/// up to date.
fn with_options(frame: &[u8], options: &[u8]) -> Vec<u8> {
    let mut f = frame[..34].to_vec();
    f.extend_from_slice(options);
    f.extend_from_slice(&frame[34..]);
    f[14] = 0x45 + (options.len() / 4) as u8;
    let total = (f.len() - 14) as u16;
    f[16..18].copy_from_slice(&total.to_be_bytes());
    f[24..26].copy_from_slice(&[0, 0]);
    let check = !(ones_sum(&f[14..34 + options.len()]) as u16);
    f[24..26].copy_from_slice(&check.to_be_bytes());
    f
}

fn frame(proto: u8, source: ([u8; 4], u16), dest: ([u8; 4], u16), flags: u8, payload: &[u8]) -> Vec<u8> {
    let header = if proto == PROTO_TCP { 20 } else { 8 };
    let mut f = vec![0u8; 34 + header];
    f[0..6].copy_from_slice(&[0x02, 0, 0, 0, 0, 0x01]);
    f[6..12].copy_from_slice(&[0x02, 0, 0, 0, 0, 0x02]);
    f[12..14].copy_from_slice(&0x0800u16.to_be_bytes());
    f.extend_from_slice(payload);
    let total = (f.len() - 14) as u16;
    f[14] = 0x45;
    f[16..18].copy_from_slice(&total.to_be_bytes());
    f[22] = 64;
    f[23] = proto;
    f[26..30].copy_from_slice(&source.0);
    f[30..34].copy_from_slice(&dest.0);
    f[34..36].copy_from_slice(&source.1.to_be_bytes());
    f[36..38].copy_from_slice(&dest.1.to_be_bytes());
    let check = !(ones_sum(&f[14..34]) as u16);
    f[24..26].copy_from_slice(&check.to_be_bytes());
    let at = if proto == PROTO_TCP {
        f[46] = 0x50;
        f[47] = flags;
        50
    } else {
        let len = (8 + payload.len()) as u16;
        f[38..40].copy_from_slice(&len.to_be_bytes());
        40
    };
    let check = !(segment_sum(&f) as u16);
    f[at..at + 2].copy_from_slice(&check.to_be_bytes());
    f
}

fn flow_in(f: &[u8]) -> Flow {
    match parse_frame(f) {
        Parsed::Complete { flow } => flow,
        other => panic!("no complete packet: {other:?}"),
    }
}

fn tcp_flow(flags: u8) -> Flow {
    Flow { source_addr: 1, dest_addr: 2, source_port: 3, dest_port: 4, is_tcp: true, flags }
}

const NODE: Node = Node { daddr: 0xAC12_000A, dport: 3000, dmac: [0x02, 0x42, 0xAC, 0x12, 0x00, 0x0A] };

#[test]
fn layout_agrees_with_the_header_types() {
    assert_eq!(ETH_LEN, EthHdr::LEN);
    assert_eq!(IPV4_LEN, Ipv4Hdr::LEN);
    assert_eq!(TCP_LEN, TcpHdr::LEN);
    assert_eq!(UDP_LEN, UdpHdr::LEN);
    assert_eq!(ETHER_TYPE_IPV4.to_be(), EtherType::Ipv4 as u16);
    assert_eq!(PROTO_TCP, IpProto::Tcp as u8);
    assert_eq!(PROTO_UDP, IpProto::Udp as u8);
}

#[test]
fn tcp_headers_are_read() {
    let f = frame(PROTO_TCP, ([192, 168, 1, 10], 40000), ([10, 0, 0, 1], 80), SYN, b"");
    assert_eq!(
        parse_frame(&f),
        Parsed::Complete {
            flow: Flow {
                source_addr: 0xC0A8_010A,
                dest_addr: 0x0A00_0001,
                source_port: 40000,
                dest_port: 80,
                is_tcp: true,
                flags: SYN,
            }
        }
    );
}

#[test]
fn udp_headers_are_read() {
    let f = frame(PROTO_UDP, ([1, 2, 3, 4], 5), ([6, 7, 8, 9], 53), 0, b"hello");
    assert_eq!(
        parse_frame(&f),
        Parsed::Complete {
            flow: Flow {
                source_addr: 0x0102_0304,
                dest_addr: 0x0607_0809,
                source_port: 5,
                dest_port: 53,
                is_tcp: false,
                flags: 0,
            }
        }
    );
}

#[test]
fn other_protocols_are_not_handled() {
    let mut arp = frame(PROTO_TCP, ([1, 2, 3, 4], 1), ([5, 6, 7, 8], 80), SYN, b"");
    arp[12..14].copy_from_slice(&0x0806u16.to_be_bytes());
    assert_eq!(parse_frame(&arp), Parsed::Unhandled);
    assert_eq!(parse_frame(&arp[..14]), Parsed::Unhandled);
    let mut icmp = frame(PROTO_TCP, ([1, 2, 3, 4], 1), ([5, 6, 7, 8], 80), SYN, b"");
    icmp[23] = 1;
    assert_eq!(parse_frame(&icmp), Parsed::Unhandled);
    assert_eq!(parse_frame(&icmp[..34]), Parsed::Unhandled);
}

#[test]
fn short_frames_are_truncated() {
    let tcp = frame(PROTO_TCP, ([1, 2, 3, 4], 1), ([5, 6, 7, 8], 80), SYN, b"");
    assert_eq!(parse_frame(&[]), Parsed::Truncated { dest_port: None });
    assert_eq!(parse_frame(&tcp[..13]), Parsed::Truncated { dest_port: None });
    assert_eq!(parse_frame(&tcp[..33]), Parsed::Truncated { dest_port: None });
    assert_eq!(parse_frame(&tcp[..37]), Parsed::Truncated { dest_port: None });
    assert_eq!(parse_frame(&tcp[..38]), Parsed::Truncated { dest_port: Some(80) });
    assert_eq!(parse_frame(&tcp[..53]), Parsed::Truncated { dest_port: Some(80) });
    assert!(matches!(parse_frame(&tcp), Parsed::Complete { .. }));
    let udp = frame(PROTO_UDP, ([1, 2, 3, 4], 1), ([5, 6, 7, 8], 443), 0, b"");
    assert_eq!(parse_frame(&udp[..41]), Parsed::Truncated { dest_port: Some(443) });
    assert!(matches!(parse_frame(&udp), Parsed::Complete { .. }));
}

#[test]
fn illegal_flag_combinations_are_malformed() {
    for flags in [0, SYN | FIN, SYN | RST, FIN | RST, FIN | PSH | URG, 0xFF, SYN | FIN | ACK] {
        assert!(is_malformed(&tcp_flow(flags)), "{flags:#x}");
    }
    for flags in [SYN, ACK, SYN | ACK, FIN | ACK, RST, RST | ACK, PSH | ACK, FIN | PSH | ACK, PSH | URG, ACK | URG] {
        assert!(!is_malformed(&tcp_flow(flags)), "{flags:#x}");
    }
}

#[test]
fn udp_is_never_malformed() {
    assert!(!is_malformed(&Flow { is_tcp: false, ..tcp_flow(0) }));
    assert!(!is_malformed(&Flow { is_tcp: false, ..tcp_flow(SYN | FIN) }));
}

#[test]
fn flow_hash_golden_values() {
    let f = frame(PROTO_TCP, ([192, 168, 1, 10], 40000), ([10, 0, 0, 1], 80), SYN, b"");
    assert_eq!(hash_flow(&flow_in(&f)), 15639);
    let g = frame(PROTO_UDP, ([203, 0, 113, 7], 51234), ([10, 0, 0, 1], 443), 0, b"");
    assert_eq!(hash_flow(&flow_in(&g)), 30460);
    let zero = Flow { source_addr: 0, dest_addr: 0, source_port: 0, dest_port: 0, is_tcp: true, flags: 2 };
    assert_eq!(hash_flow(&zero), 32890);
}

#[test]
fn flow_hash_ignores_the_flags() {
    assert_eq!(hash_flow(&tcp_flow(SYN)), hash_flow(&tcp_flow(ACK)));
    assert_ne!(hash_flow(&tcp_flow(SYN)), hash_flow(&Flow { source_port: 5, ..tcp_flow(SYN) }));
}

#[test]
fn rewritten_tcp_frame_keeps_valid_checksums() {
    let before = frame(PROTO_TCP, ([192, 168, 1, 10], 40000), ([10, 0, 0, 1], 80), SYN | ACK, b"odd payload");
    assert_eq!(ones_sum(&before[14..34]), 0xFFFF);
    assert_eq!(segment_sum(&before), 0xFFFF);
    let mut f = before.clone();
    rewrite_frame(&mut f, &flow_in(&before), &NODE);
    assert_eq!(ones_sum(&f[14..34]), 0xFFFF);
    assert_eq!(segment_sum(&f), 0xFFFF);
    assert_eq!(&f[0..6], &NODE.dmac);
    assert_eq!(&f[30..34], &[172, 18, 0, 10]);
    assert_eq!(&f[36..38], &3000u16.to_be_bytes());
}

#[test]
fn rewritten_frame_is_the_same_flow_to_the_node() {
    let before = frame(PROTO_UDP, ([192, 168, 1, 10], 40000), ([10, 0, 0, 1], 53), 0, b"query");
    let flow = flow_in(&before);
    let mut f = before.clone();
    rewrite_frame(&mut f, &flow, &NODE);
    assert_eq!(flow_in(&f), Flow { dest_addr: NODE.daddr, dest_port: 3000, ..flow });
    assert_eq!(segment_sum(&f), 0xFFFF);
}

#[test]
fn rewrite_touches_nothing_else() {
    let before = frame(PROTO_TCP, ([192, 168, 1, 10], 40000), ([10, 0, 0, 1], 80), SYN, b"payload");
    let mut f = before.clone();
    rewrite_frame(&mut f, &flow_in(&before), &NODE);
    assert_eq!(f.len(), before.len());
    let written = [0..6, 24..26, 30..34, 36..38, 50..52];
    for i in 0..f.len() {
        if !written.iter().any(|r| r.contains(&i)) {
            assert_eq!(f[i], before[i], "byte {i}");
        }
    }
}

#[test]
fn port_zero_keeps_the_original_port() {
    let before = frame(PROTO_TCP, ([192, 168, 1, 10], 40000), ([10, 0, 0, 1], 80), SYN, b"");
    let mut f = before.clone();
    rewrite_frame(&mut f, &flow_in(&before), &Node { dport: 0, ..NODE });
    assert_eq!(flow_in(&f).dest_port, 80);
    assert_eq!(segment_sum(&f), 0xFFFF);
}

#[test]
fn udp_without_checksum_stays_without() {
    let mut f = frame(PROTO_UDP, ([192, 168, 1, 10], 40000), ([10, 0, 0, 1], 53), 0, b"x");
    f[40..42].copy_from_slice(&[0, 0]);
    let flow = flow_in(&f);
    rewrite_frame(&mut f, &flow, &NODE);
    assert_eq!(&f[40..42], &[0, 0]);
    assert_eq!(&f[36..38], &3000u16.to_be_bytes());
    assert_eq!(ones_sum(&f[14..34]), 0xFFFF);
}

#[test]
fn udp_checksum_of_zero_is_sent_as_all_ones() {
    // With this address the updated sum comes out as 0xFFFF, so the checksum
    // would be zero.
    let before = frame(PROTO_UDP, ([192, 168, 1, 10], 40000), ([10, 0, 0, 1], 53), 0, b"x");
    let flow = flow_in(&before);
    let check = u16::from_be_bytes([before[40], before[41]]);
    let mut hits = 0;
    for low in 0..=0xFFFFu32 {
        let node = Node { daddr: 0x0A00_0000 + low, dport: 0, dmac: [0; 6] };
        let target = u32::from(check) + 1 + 0xFFFF - low;
        if target % 0xFFFF == 0 && low != 1 {
            let mut f = before.clone();
            rewrite_frame(&mut f, &flow, &node);
            assert_eq!(&f[40..42], &[0xFF, 0xFF]);
            assert_eq!(segment_sum(&f), 0xFFFF);
            hits += 1;
        }
    }
    assert!(hits > 0);
}

#[test]
fn options_are_skipped() {
    let plain = frame(PROTO_TCP, ([192, 168, 1, 10], 40000), ([10, 0, 0, 1], 80), SYN, b"");
    for len in [4, 12, 40] {
        let f = with_options(&plain, &vec![1; len]);
        assert_eq!(flow_in(&f), flow_in(&plain));
        assert_eq!(parse_frame(&f[..f.len() - 1]), Parsed::Truncated { dest_port: Some(80) });
        assert_eq!(parse_frame(&f[..38 + len]), Parsed::Truncated { dest_port: Some(80) });
        assert_eq!(parse_frame(&f[..37 + len]), Parsed::Truncated { dest_port: None });
        assert_eq!(parse_frame(&f[..34]), Parsed::Truncated { dest_port: None });
    }
}

#[test]
fn a_header_length_below_the_minimum_counts_as_the_minimum() {
    let plain = frame(PROTO_TCP, ([192, 168, 1, 10], 40000), ([10, 0, 0, 1], 80), SYN, b"");
    for short in [0x40, 0x44] {
        let mut f = plain.clone();
        f[14] = short;
        assert_eq!(flow_in(&f), flow_in(&plain));
    }
}

#[test]
fn rewritten_frame_with_options_keeps_valid_checksums() {
    for proto in [PROTO_TCP, PROTO_UDP] {
        let plain = frame(proto, ([192, 168, 1, 10], 40000), ([10, 0, 0, 1], 80), SYN, b"some payload");
        let before = with_options(&plain, &[0x94, 4, 0, 0, 1, 1, 1, 0]);
        let mut f = before.clone();
        rewrite_frame(&mut f, &flow_in(&before), &NODE);
        assert_eq!(ones_sum(&f[14..42]), 0xFFFF);
        assert_eq!(segment_sum(&f), 0xFFFF);
        assert_eq!(&f[34..42], &before[34..42]);
        assert_eq!(&f[44..46], &3000u16.to_be_bytes());
        assert_eq!(flow_in(&f), Flow { dest_addr: NODE.daddr, dest_port: 3000, ..flow_in(&before) });
    }
}
