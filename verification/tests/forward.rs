use l4::abuse::{count_packet, latest_packet, marked_packet, packet_key, screen, Marks, Screening};
use l4::common::{
    Node, RateState, CTRL_ACTIVE, CTRL_BLOCK_SECS, CTRL_DROP_UNMATCHED, CTRL_MALFORMED_MAX, CTRL_RATE_MAX,
    CTRL_RATE_WINDOW_MS, M, N, STAT_DROPPED_BLOCKED, STAT_DROPPED_NOBACKEND, STAT_DROPPED_RATE,
    STAT_DROPPED_VALIDATION, STAT_ROUTED,
};
use l4::config::ProtectionSettings;
use l4::forward::{action, cut_short, decide, l4, try_l4, Facts, XDP_ABORTED, XDP_DROP, XDP_PASS, XDP_TX};
use l4::packet::{hash_flow, parse_frame, Parsed, PROTO_TCP, PROTO_UDP};
use l4::tables::{route_slot, MapOp, Tables};

const SYN: u8 = 0x02;
const CLIENT: [u8; 4] = [192, 168, 1, 10];
const CLIENT_ADDR: u32 = 0xC0A8_010A;
const NODE: Node = Node { daddr: 0xAC12_000A, dport: 3000, dmac: [2, 0x42, 0xAC, 0x12, 0, 0x0A] };
const MS: u64 = 1_000_000;
const SEC: u64 = 1_000_000_000;

fn packet(proto: u8, source: [u8; 4], dest_port: u16, flags: u8) -> Vec<u8> {
    let mut f = vec![0u8; if proto == PROTO_TCP { 54 } else { 42 }];
    f[12..14].copy_from_slice(&[0x08, 0x00]);
    f[14] = 0x45;
    f[23] = proto;
    f[26..30].copy_from_slice(&source);
    f[30..34].copy_from_slice(&[10, 0, 0, 1]);
    f[34..36].copy_from_slice(&40000u16.to_be_bytes());
    f[36..38].copy_from_slice(&dest_port.to_be_bytes());
    if proto == PROTO_TCP {
        f[47] = flags;
    }
    f
}

fn set(t: &mut Tables, index: u32, value: u32) {
    assert!(t.perform(&MapOp::SetCtrl { index, value }));
}

/// Port 80 is load-balanced and every slot of buffer 0 leads to `NODE`.
fn routed_tables() -> Tables {
    let mut t = Tables::new();
    assert!(t.perform(&MapOp::InsertPort { port: 80 }));
    assert!(t.perform(&MapOp::InsertBackend { id: 7, node: NODE }));
    for slot in 0..M {
        assert!(t.perform(&MapOp::SetRoute { slot, value: 7 }));
    }
    t
}

fn limited_tables(rate: u32, malformed: u32) -> Tables {
    let mut t = routed_tables();
    set(&mut t, CTRL_RATE_MAX, rate);
    set(&mut t, CTRL_MALFORMED_MAX, malformed);
    set(&mut t, CTRL_RATE_WINDOW_MS, 1000);
    set(&mut t, CTRL_BLOCK_SECS, 300);
    t
}

fn slot_of(f: &[u8]) -> u32 {
    match parse_frame(f) {
        Parsed::Complete { flow } => hash_flow(&flow),
        other => panic!("no complete packet: {other:?}"),
    }
}

fn counters(t: &Tables) -> [u64; 5] {
    [t.stats[0], t.stats[1], t.stats[2], t.stats[3], t.stats[4]]
}

#[test]
fn valid_packet_is_sent_to_its_backend() {
    let mut t = routed_tables();
    let mut f = packet(PROTO_TCP, CLIENT, 80, SYN);
    assert_eq!(l4(&mut f, &mut t, 5), XDP_TX);
    assert_eq!(&f[0..6], &NODE.dmac);
    assert_eq!(&f[30..34], &[172, 18, 0, 10]);
    assert_eq!(&f[36..38], &3000u16.to_be_bytes());
    assert_eq!(counters(&t), [1, 0, 0, 0, 0]);
    assert_eq!(t.stats[STAT_ROUTED as usize], 1);
}

#[test]
fn udp_is_sent_on_too() {
    let mut t = routed_tables();
    let mut f = packet(PROTO_UDP, CLIENT, 80, 0);
    assert_eq!(try_l4(&mut f, &mut t, 5), Ok(XDP_TX));
    assert_eq!(&f[40..42], &[0, 0]);
}

#[test]
fn only_the_slot_of_the_flow_matters() {
    let mut f = packet(PROTO_TCP, CLIENT, 80, SYN);
    let slot = slot_of(&f);
    let mut t = Tables::new();
    t.perform(&MapOp::InsertPort { port: 80 });
    t.perform(&MapOp::InsertBackend { id: 7, node: NODE });
    t.perform(&MapOp::SetRoute { slot, value: 7 });
    assert_eq!(l4(&mut f, &mut t, 0), XDP_TX);
    let mut other = packet(PROTO_TCP, [192, 168, 1, 11], 80, SYN);
    assert_ne!(slot_of(&other), slot);
    assert_eq!(l4(&mut other, &mut t, 0), XDP_PASS);
}

#[test]
fn unrelated_traffic_is_passed_untouched() {
    let mut t = limited_tables(1, 1);
    let mut arp = packet(PROTO_TCP, CLIENT, 80, SYN);
    arp[12..14].copy_from_slice(&[0x08, 0x06]);
    let mut icmp = packet(PROTO_TCP, CLIENT, 80, SYN);
    icmp[23] = 1;
    let ssh = packet(PROTO_TCP, CLIENT, 22, 0);
    for frame in [arp, icmp, ssh] {
        for _ in 0..5 {
            let mut f = frame.clone();
            assert_eq!(l4(&mut f, &mut t, 0), XDP_PASS);
            assert_eq!(f, frame);
        }
    }
    assert_eq!(counters(&t), [0; 5]);
    assert!(t.rate.is_empty());
    assert!(t.blocklist.is_empty());
}

#[test]
fn truncated_packets_on_listed_ports_are_dropped() {
    let mut t = routed_tables();
    let full = packet(PROTO_TCP, CLIENT, 80, SYN);
    for len in [38, 45, 53] {
        let mut f = full[..len].to_vec();
        assert_eq!(try_l4(&mut f, &mut t, 0), Err(XDP_DROP));
        assert_eq!(l4(&mut f, &mut t, 0), XDP_ABORTED);
        assert_eq!(f, &full[..len]);
    }
    let mut udp = packet(PROTO_UDP, CLIENT, 80, 0);
    assert_eq!(l4(&mut udp[..41], &mut t, 0), XDP_ABORTED);
    assert_eq!(counters(&t), [0; 5]);
}

#[test]
fn other_short_frames_are_passed() {
    let mut t = routed_tables();
    let full = packet(PROTO_TCP, CLIENT, 80, SYN);
    for len in [0, 13, 14, 33, 37] {
        let mut f = full[..len].to_vec();
        assert_eq!(try_l4(&mut f, &mut t, 0), Err(XDP_PASS), "{len} bytes");
        assert_eq!(l4(&mut f, &mut t, 0), XDP_PASS, "{len} bytes");
    }
    let mut ssh = packet(PROTO_TCP, CLIENT, 22, SYN)[..40].to_vec();
    assert_eq!(l4(&mut ssh, &mut t, 0), XDP_PASS);
}

#[test]
fn verdicts_become_driver_actions() {
    assert_eq!(action(Ok(XDP_TX)), XDP_TX);
    assert_eq!(action(Ok(XDP_DROP)), XDP_DROP);
    assert_eq!(action(Err(XDP_PASS)), XDP_PASS);
    assert_eq!(action(Err(XDP_DROP)), XDP_ABORTED);
    assert_eq!([XDP_ABORTED, XDP_DROP, XDP_PASS, XDP_TX], [0, 1, 2, 3]);
}

#[test]
fn deliveries_are_counted_by_their_outcome() {
    let frame = packet(PROTO_TCP, CLIENT, 80, SYN);
    let flow = match parse_frame(&frame) {
        Parsed::Complete { flow } => flow,
        other => panic!("no complete packet: {other:?}"),
    };
    let mut facts = Facts {
        expiry: None,
        seen: RateState { valid: 1, malformed: 0 },
        marks: Marks { valid: None, malformed: None },
        limits: ProtectionSettings { rate_max: 1, window_ms: 1000, malformed_max: 0, block_secs: 300 },
        node: None,
        drop_unmatched: 1,
    };
    let mut f = frame.clone();
    let d = decide(&mut f, &flow, &facts, 5);
    assert_eq!((d.verdict, d.stat), (XDP_DROP, STAT_DROPPED_NOBACKEND));
    assert_eq!(d.screening, Screening { rate: Some(facts.seen), block_until: None, dropped: None });
    facts.drop_unmatched = 0;
    let d = decide(&mut f, &flow, &facts, 5);
    assert_eq!((d.verdict, d.stat), (XDP_PASS, STAT_DROPPED_NOBACKEND));
    facts.node = Some(NODE);
    facts.marks.valid = Some(4);
    let d = decide(&mut f, &flow, &facts, 5);
    assert_eq!((d.verdict, d.stat), (XDP_DROP, STAT_DROPPED_RATE));
    assert_eq!(d.screening.block_until, Some(5 + 300 * SEC));
    assert_eq!(f, frame);
    facts.marks.valid = None;
    let d = decide(&mut f, &flow, &facts, 5);
    assert_eq!((d.verdict, d.stat), (XDP_TX, STAT_ROUTED));
    assert_eq!(&f[0..6], &NODE.dmac);
    assert_eq!(cut_short(true), Err(XDP_DROP));
    assert_eq!(cut_short(false), Err(XDP_PASS));
}

#[test]
fn illegal_flags_are_dropped_on_listed_ports() {
    let mut t = routed_tables();
    for flags in [0x00u8, 0x03, 0x06, 0x05, 0x29] {
        let frame = packet(PROTO_TCP, CLIENT, 80, flags);
        let mut f = frame.clone();
        assert_eq!(l4(&mut f, &mut t, 0), XDP_DROP);
        assert_eq!(f, frame);
    }
    assert_eq!(t.stats[STAT_DROPPED_VALIDATION as usize], 5);
    assert_eq!(counters(&t), [0, 5, 0, 0, 0]);
}

#[test]
fn unmatched_packets_are_passed_or_dropped_as_configured() {
    let mut t = Tables::new();
    t.perform(&MapOp::InsertPort { port: 80 });
    let mut f = packet(PROTO_TCP, CLIENT, 80, SYN);
    assert_eq!(l4(&mut f, &mut t, 0), XDP_PASS);
    set(&mut t, CTRL_DROP_UNMATCHED, 1);
    assert_eq!(l4(&mut f, &mut t, 0), XDP_DROP);
    set(&mut t, CTRL_DROP_UNMATCHED, 2);
    assert_eq!(l4(&mut f, &mut t, 0), XDP_PASS);
    assert_eq!(t.stats[STAT_DROPPED_NOBACKEND as usize], 3);
}

#[test]
fn the_active_buffer_is_the_one_that_counts() {
    let mut t = routed_tables();
    let mut f = packet(PROTO_TCP, CLIENT, 80, SYN);
    set(&mut t, CTRL_ACTIVE, 1);
    // Buffer 1 is all zeros and there is no backend 0.
    assert_eq!(l4(&mut f, &mut t, 0), XDP_PASS);
    let other = Node { daddr: 1, dport: 0, dmac: [9; 6] };
    t.perform(&MapOp::InsertBackend { id: N, node: other });
    t.perform(&MapOp::SetRoute { slot: M + slot_of(&f), value: N });
    assert_eq!(l4(&mut f, &mut t, 0), XDP_TX);
    assert_eq!(&f[0..6], &[9; 6]);
    assert_eq!(&f[36..38], &80u16.to_be_bytes());
}

#[test]
fn buffers_lie_one_behind_the_other() {
    assert_eq!(route_slot(0, 5), 5);
    assert_eq!(route_slot(1, 0), 65537);
    assert_eq!(route_slot(1, 65536), 131073);
    assert_eq!(route_slot(65536, 65536), 131072);
}

#[test]
fn rate_limit_blacklists_the_source() {
    let mut t = limited_tables(3, 0);
    for i in 0..3 {
        let mut f = packet(PROTO_TCP, CLIENT, 80, SYN);
        assert_eq!(l4(&mut f, &mut t, 100 + i), XDP_TX);
    }
    let now = 100 + 1000 * MS;
    let mut f = packet(PROTO_TCP, CLIENT, 80, SYN);
    assert_eq!(l4(&mut f, &mut t, now), XDP_DROP);
    assert_eq!(t.blocklist.get(&CLIENT_ADDR), Some(&(now + 300 * SEC)));
    assert_eq!(t.rate.get(&CLIENT_ADDR), Some(&RateState { valid: 4, malformed: 0 }));
    assert_eq!(t.stats[STAT_DROPPED_RATE as usize], 1);
    assert_eq!(counters(&t), [3, 0, 0, 1, 0]);
}

#[test]
fn a_block_lasts_its_duration() {
    let mut t = limited_tables(1, 0);
    let start = 50;
    for now in [start, start + 1] {
        l4(&mut packet(PROTO_TCP, CLIENT, 80, SYN), &mut t, now);
    }
    let until = start + 1 + 300 * SEC;
    // Traffic of others in between makes no difference.
    assert_eq!(l4(&mut packet(PROTO_TCP, [1, 1, 1, 1], 80, SYN), &mut t, start + 2), XDP_TX);
    for now in [start + 2, start + 200 * SEC, until - 1] {
        assert_eq!(l4(&mut packet(PROTO_UDP, CLIENT, 80, 0), &mut t, now), XDP_DROP);
        assert_eq!(t.blocklist.get(&CLIENT_ADDR), Some(&until));
    }
    assert_eq!(t.stats[STAT_DROPPED_BLOCKED as usize], 3);
    // Ports that are not load-balanced stay reachable meanwhile.
    assert_eq!(l4(&mut packet(PROTO_TCP, CLIENT, 22, SYN), &mut t, start + 3), XDP_PASS);
    assert_eq!(l4(&mut packet(PROTO_TCP, CLIENT, 80, SYN), &mut t, until), XDP_TX);
}

#[test]
fn malformed_limit_blacklists_the_source() {
    let mut t = limited_tables(0, 2);
    for now in 0..2 {
        assert_eq!(l4(&mut packet(PROTO_TCP, CLIENT, 80, 0), &mut t, now), XDP_DROP);
    }
    assert!(t.blocklist.is_empty());
    assert_eq!(l4(&mut packet(PROTO_TCP, CLIENT, 80, 0), &mut t, 2), XDP_DROP);
    assert_eq!(t.blocklist.get(&CLIENT_ADDR), Some(&(2 + 300 * SEC)));
    assert_eq!(counters(&t), [0, 2, 0, 1, 0]);
}

#[test]
fn the_window_slides() {
    // Of the packets at 0, 900, 1001 and 1100 ms the last three lie within 1000 ms.
    let mut t = limited_tables(2, 0);
    for ms in [0, 900, 1001] {
        assert_eq!(l4(&mut packet(PROTO_TCP, CLIENT, 80, SYN), &mut t, 7 + ms * MS), XDP_TX);
    }
    let now = 7 + 1100 * MS;
    assert_eq!(try_l4(&mut packet(PROTO_TCP, CLIENT, 80, SYN), &mut t, now), Ok(XDP_DROP));
    assert_eq!(t.blocklist.get(&CLIENT_ADDR), Some(&(now + 300 * SEC)));
}

#[test]
fn packets_leave_the_window() {
    // Never more than two packets within 1000 ms.
    let mut t = limited_tables(2, 0);
    for ms in [0, 1000, 1001, 2001, 2002, 3500, 3501, 4502, 5000] {
        assert_eq!(l4(&mut packet(PROTO_TCP, CLIENT, 80, SYN), &mut t, ms * MS), XDP_TX, "{ms} ms");
    }
    assert!(t.blocklist.is_empty());
    assert_eq!(t.rate.get(&CLIENT_ADDR), Some(&RateState { valid: 9, malformed: 0 }));
    // The end of the window counts as within it.
    assert_eq!(l4(&mut packet(PROTO_TCP, CLIENT, 80, SYN), &mut t, 5502 * MS), XDP_DROP);
}

#[test]
fn valid_and_malformed_packets_are_counted_apart() {
    let mut t = limited_tables(2, 1);
    for (now, flags) in [(0, SYN), (1, 0), (2, SYN)] {
        l4(&mut packet(PROTO_TCP, CLIENT, 80, flags), &mut t, now);
    }
    assert!(t.blocklist.is_empty());
    assert_eq!(t.rate.get(&CLIENT_ADDR), Some(&RateState { valid: 2, malformed: 1 }));
    assert_eq!(counters(&t), [2, 1, 0, 0, 0]);
    l4(&mut packet(PROTO_TCP, CLIENT, 80, 0), &mut t, 3);
    assert_eq!(t.blocklist.get(&CLIENT_ADDR), Some(&(3 + 300 * SEC)));
}

#[test]
fn enforcement_agrees_with_counting_by_hand() {
    let (rate, malformed) = (3, 2);
    let mut t = limited_tables(rate, malformed);
    set(&mut t, CTRL_BLOCK_SECS, 0);
    let mut seen: Vec<(u64, bool)> = Vec::new();
    let mut x: u64 = 12345;
    let mut now: u64 = 0;
    for _ in 0..2000 {
        x = x.wrapping_mul(6364136223846793005).wrapping_add(1442695040888963407);
        now += (x >> 33) % (500 * MS);
        let bad = (x >> 20) % 3 == 0;
        seen.push((now, bad));
        let flags = if bad { 0 } else { SYN };
        let stat = t.stats[STAT_DROPPED_RATE as usize];
        l4(&mut packet(PROTO_TCP, CLIENT, 80, flags), &mut t, now);
        let within = |kind: bool| seen.iter().filter(|p| p.1 == kind && now - p.0 <= 1000 * MS).count() as u32;
        let over = within(false) > rate || within(true) > malformed;
        assert_eq!(t.stats[STAT_DROPPED_RATE as usize] - stat, u64::from(over));
    }
    assert!(t.stats[STAT_DROPPED_RATE as usize] > 10);
    assert!(t.stats[STAT_ROUTED as usize] > 10);
}

#[test]
fn other_sources_do_not_count() {
    // 20 sources take turns; each stays within its limit until its third packet.
    let mut t = limited_tables(2, 1);
    let mut now = 0;
    for round in 0..3 {
        for last in 0..20 {
            now += 1;
            let f = &mut packet(PROTO_TCP, [10, 9, 8, last], 80, SYN);
            let expected = if round < 2 { XDP_TX } else { XDP_DROP };
            assert_eq!(l4(f, &mut t, now), expected, "packet {round} of source {last}");
        }
    }
    assert_eq!(t.blocklist.len(), 20);
}

#[test]
fn packets_dropped_by_a_block_are_not_counted() {
    let mut t = limited_tables(2, 0);
    set(&mut t, CTRL_BLOCK_SECS, 1);
    let mut send = |t: &mut Tables, ms: u64| l4(&mut packet(PROTO_TCP, CLIENT, 80, SYN), t, ms * MS);
    assert_eq!([0, 1, 2].map(|ms| send(&mut t, ms)), [XDP_TX, XDP_TX, XDP_DROP]);
    assert_eq!(t.blocklist.get(&CLIENT_ADDR), Some(&(1002 * MS)));
    assert_eq!([500, 900, 1001].map(|ms| send(&mut t, ms)), [XDP_DROP; 3]);
    assert_eq!(t.rate.get(&CLIENT_ADDR), Some(&RateState { valid: 3, malformed: 0 }));
    // The block is over, and only the packet at 2 ms still lies within the window.
    assert_eq!(send(&mut t, 1002), XDP_TX);
    assert_eq!(send(&mut t, 1003), XDP_TX);
    assert_eq!(send(&mut t, 1004), XDP_DROP);
}

#[test]
fn illegal_flags_behind_options_are_dropped() {
    let mut t = routed_tables();
    let plain = packet(PROTO_TCP, CLIENT, 80, 0x03);
    let mut f = plain[..34].to_vec();
    f.extend_from_slice(&[1, 1, 1, 1]);
    f.extend_from_slice(&plain[34..]);
    f[14] = 0x46;
    let before = f.clone();
    assert_eq!(l4(&mut f, &mut t, 0), XDP_DROP);
    assert_eq!(f, before);
    f[51] = SYN;
    assert_eq!(l4(&mut f, &mut t, 0), XDP_TX);
    assert_eq!(&f[34..38], &[1, 1, 1, 1]);
    assert_eq!(&f[40..42], &3000u16.to_be_bytes());
}

#[test]
fn packets_are_numbered_by_kind() {
    let first = count_packet(None, false);
    assert_eq!(first, RateState { valid: 1, malformed: 0 });
    let second = count_packet(Some(first), true);
    assert_eq!(second, RateState { valid: 1, malformed: 1 });
    assert_eq!(latest_packet(&second, false), 0);
    assert_eq!(latest_packet(&RateState { valid: 9, malformed: 3 }, true), 2);
}

#[test]
fn marks_lie_the_limit_back() {
    assert_eq!(marked_packet(3, 2), Some(0));
    assert_eq!(marked_packet(10, 2), Some(7));
    assert_eq!(marked_packet(2, 2), None);
    assert_eq!(marked_packet(10, 0), None);
}

#[test]
fn times_are_kept_by_source_and_number() {
    assert_eq!(packet_key(1, 2), 0x1_0000_0002);
    assert_eq!(packet_key(u32::MAX, 0xFFFF_FFFF), u64::MAX);
    assert_eq!(packet_key(1, 0x1_0000_0002), 0x1_0000_0002);
}

#[test]
fn sources_are_counted_separately() {
    let mut t = limited_tables(1, 1);
    for last in 0..20 {
        assert_eq!(l4(&mut packet(PROTO_TCP, [10, 9, 8, last], 80, SYN), &mut t, 7), XDP_TX);
    }
    assert_eq!(t.rate.len(), 20);
    assert!(t.blocklist.is_empty());
}

#[test]
fn without_protection_nothing_is_recorded() {
    let mut t = routed_tables();
    for now in 0..100 {
        assert_eq!(l4(&mut packet(PROTO_TCP, CLIENT, 80, SYN), &mut t, now), XDP_TX);
    }
    assert!(t.rate.is_empty());
    assert_eq!(counters(&t), [100, 0, 0, 0, 0]);
}

#[test]
fn screening_golden_values() {
    let limits = ProtectionSettings { rate_max: 2, window_ms: 0, malformed_max: 1, block_secs: 3 };
    let seen = RateState { valid: 3, malformed: 1 };
    let marks = |valid, malformed| Marks { valid, malformed };
    // A window of 0 ms counts as 1 ms.
    assert_eq!(
        screen(None, seen, marks(Some(5), None), &limits, 5 + MS, false),
        Screening { rate: Some(seen), block_until: Some(5 + MS + 3 * SEC), dropped: Some(STAT_DROPPED_RATE) }
    );
    assert_eq!(
        screen(None, seen, marks(Some(5), Some(5)), &limits, 6 + MS, true),
        Screening { rate: Some(seen), block_until: None, dropped: Some(STAT_DROPPED_VALIDATION) }
    );
    assert_eq!(
        screen(None, seen, marks(None, Some(6)), &limits, 6 + MS, true),
        Screening { rate: Some(seen), block_until: Some(6 + MS + 3 * SEC), dropped: Some(STAT_DROPPED_RATE) }
    );
    assert_eq!(
        screen(Some(9), seen, marks(Some(8), None), &limits, 8, false),
        Screening { rate: None, block_until: None, dropped: Some(STAT_DROPPED_BLOCKED) }
    );
    assert_eq!(
        screen(Some(9), seen, marks(None, None), &limits, 9, false),
        Screening { rate: Some(seen), block_until: None, dropped: None }
    );
    let off = ProtectionSettings { rate_max: 0, malformed_max: 0, ..limits };
    assert_eq!(
        screen(None, seen, marks(Some(5), Some(5)), &off, 5, false),
        Screening { rate: None, block_until: None, dropped: None }
    );
    assert_eq!(
        screen(None, seen, marks(None, None), &off, 5, true),
        Screening { rate: None, block_until: None, dropped: Some(STAT_DROPPED_VALIDATION) }
    );
}

#[test]
fn table_writes_are_bounded() {
    let mut t = Tables::new();
    assert!(!t.perform(&MapOp::SetCtrl { index: 8, value: 1 }));
    assert!(!t.perform(&MapOp::SetRoute { slot: 2 * M, value: 1 }));
    assert!(t.perform(&MapOp::SetRoute { slot: 2 * M - 1, value: 1 }));
    for port in 1..=64 {
        assert!(t.perform(&MapOp::InsertPort { port }));
    }
    assert!(!t.perform(&MapOp::InsertPort { port: 65 }));
    assert!(t.perform(&MapOp::InsertPort { port: 64 }));
    assert!(t.perform(&MapOp::RemovePort { port: 1 }));
    assert!(!t.perform(&MapOp::RemovePort { port: 1 }));
    assert!(t.perform(&MapOp::InsertPort { port: 65 }));
    assert!(!t.is_listed(1));
    assert!(t.is_listed(65));
    for id in 0..2 * N {
        assert!(t.perform(&MapOp::InsertBackend { id, node: NODE }));
    }
    assert!(!t.perform(&MapOp::InsertBackend { id: 2 * N, node: NODE }));
    assert!(t.perform(&MapOp::InsertBackend { id: 0, node: NODE }));
    assert_eq!(t.ctrl(CTRL_ACTIVE), 0);
    assert_eq!(t.ctrl(99), 0);
    t.stat(99);
    assert_eq!(t.stats, vec![0; 8]);
}

#[test]
fn only_port_removal_may_fail() {
    assert!(!MapOp::RemovePort { port: 1 }.is_required());
    assert!(MapOp::InsertPort { port: 1 }.is_required());
    assert!(MapOp::SetCtrl { index: 0, value: 0 }.is_required());
    assert!(MapOp::SetRoute { slot: 0, value: 0 }.is_required());
    assert!(MapOp::InsertBackend { id: 0, node: NODE }.is_required());
}
