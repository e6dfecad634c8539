use l4::backend::Backend;
use l4::common::{
    CTRL_ACTIVE, CTRL_BLOCK_SECS, CTRL_DROP_UNMATCHED, CTRL_MALFORMED_MAX, CTRL_RATE_MAX, CTRL_RATE_WINDOW_MS, M, N,
};
use l4::config::ProtectionSettings;
use l4::dataplane::{ApplyError, DataPlane, Stats};
use l4::forward::{l4, XDP_TX};
use l4::maglev::build_table;
use l4::net::Ipv4Addr;
use l4::tables::{MapOp, Tables};

fn backend(last: u8, port: Option<u16>) -> Backend {
    Backend { ip: Ipv4Addr::new(10, 0, 0, last), port, mac: [2, 0, 0, 0, 0, last] }
}

fn table_for(backends: &[Backend]) -> Vec<u32> {
    let keys: Vec<String> = backends.iter().map(|b| b.key()).collect();
    build_table(&keys)
}

fn perform_all(t: &mut Tables, ops: &[MapOp]) {
    for op in ops {
        assert!(t.perform(op), "{op:?}");
    }
}

fn started() -> (DataPlane, Tables) {
    let (dp, ops) = DataPlane::new();
    let mut t = Tables::new();
    perform_all(&mut t, &ops);
    (dp, t)
}

fn addresses(t: &Tables) -> Vec<Option<u32>> {
    (0..M).map(|h| t.lookup(h).map(|n| n.daddr)).collect()
}

#[test]
fn startup_selects_buffer_zero() {
    let (dp, ops) = DataPlane::new();
    assert_eq!(dp.active, 0);
    assert!(dp.installed_ports.is_empty());
    assert_eq!(ops.len(), 2);
    assert!(matches!(ops[0], MapOp::SetCtrl { index: CTRL_ACTIVE, value: 0 }));
    assert!(matches!(ops[1], MapOp::SetCtrl { index: CTRL_DROP_UNMATCHED, value: 0 }));
    let (_, t) = started();
    assert!(addresses(&t).iter().all(|a| a.is_none()));
}

#[test]
fn thresholds_are_written() {
    let (dp, mut t) = started();
    let p = ProtectionSettings { rate_max: 1, window_ms: 2, malformed_max: 3, block_secs: 4 };
    perform_all(&mut t, &dp.set_protection(p));
    assert_eq!(t.ctrl(CTRL_RATE_MAX), 1);
    assert_eq!(t.ctrl(CTRL_RATE_WINDOW_MS), 2);
    assert_eq!(t.ctrl(CTRL_MALFORMED_MAX), 3);
    assert_eq!(t.ctrl(CTRL_BLOCK_SECS), 4);
}

#[test]
fn drop_unmatched_is_written() {
    let (dp, mut t) = started();
    perform_all(&mut t, &dp.set_drop_unmatched(true));
    assert_eq!(t.ctrl(CTRL_DROP_UNMATCHED), 1);
    perform_all(&mut t, &dp.set_drop_unmatched(false));
    assert_eq!(t.ctrl(CTRL_DROP_UNMATCHED), 0);
}

#[test]
fn ports_are_reconciled_by_their_difference() {
    let (mut dp, mut t) = started();
    let ops = dp.set_ports(&[80, 443]);
    assert!(matches!(ops[..], [MapOp::InsertPort { port: 80 }, MapOp::InsertPort { port: 443 }]));
    perform_all(&mut t, &ops);
    dp.ports_written(&[80, 443]);
    let ops = dp.set_ports(&[443, 8080]);
    assert!(matches!(ops[..], [MapOp::InsertPort { port: 8080 }, MapOp::RemovePort { port: 80 }]));
    perform_all(&mut t, &ops);
    dp.ports_written(&[443, 8080]);
    assert_eq!(dp.installed_ports, vec![443, 8080]);
    assert!(!t.is_listed(80) && t.is_listed(443) && t.is_listed(8080));
    assert!(dp.set_ports(&[8080, 443]).is_empty());
}

#[test]
fn ports_written_before_a_failure_are_on_record() {
    let (mut dp, mut t) = started();
    let many: Vec<u16> = (1..=65).collect();
    let ops = dp.set_ports(&many);
    let made = ops.iter().take_while(|op| t.perform(op)).count();
    assert_eq!(made, 64);
    dp.ports_partly_written(&many, made);
    assert_eq!(dp.installed_ports, (1..=64).collect::<Vec<u16>>());
    let ops = dp.set_ports(&[1]);
    assert_eq!(ops.len(), 63);
    perform_all(&mut t, &ops);
    dp.ports_written(&[1]);
    assert_eq!((1..=65).filter(|&p| t.is_listed(p)).collect::<Vec<u16>>(), vec![1]);
}

#[test]
fn a_failure_keeps_the_ports_from_before_on_record() {
    let (mut dp, _) = started();
    dp.ports_written(&[80, 443]);
    dp.ports_partly_written(&[443, 1, 2, 3], 0);
    assert_eq!(dp.installed_ports, vec![80, 443]);
    dp.ports_partly_written(&[443, 1, 2, 3], 2);
    assert_eq!(dp.installed_ports, vec![80, 443, 1, 2]);
    dp.ports_partly_written(&[443, 3], 9);
    assert_eq!(dp.installed_ports, vec![80, 443, 1, 2, 3]);
    assert_eq!(dp.active, 0);
}

#[test]
fn applying_fills_the_standby_buffer_and_flips() {
    let (dp, _) = started();
    let backends = [backend(1, Some(3000)), backend(2, None)];
    let table = table_for(&backends);
    let ops = dp.apply(&backends, &table).unwrap();
    assert_eq!(ops.len(), 2 + M as usize + 1);
    match ops[0] {
        MapOp::InsertBackend { id, node } => {
            assert_eq!(id, N);
            assert_eq!((node.daddr, node.dport, node.dmac), (0x0A00_0001, 3000, [2, 0, 0, 0, 0, 1]));
        }
        other => panic!("{other:?}"),
    }
    match ops[1] {
        MapOp::InsertBackend { id, node } => assert_eq!((id, node.dport), (N + 1, 0)),
        other => panic!("{other:?}"),
    }
    for (slot, op) in ops[2..2 + M as usize].iter().enumerate() {
        match *op {
            MapOp::SetRoute { slot: s, value } => {
                assert_eq!(s, M + slot as u32);
                assert_eq!(value, N + table[slot]);
            }
            other => panic!("{other:?}"),
        }
    }
    assert!(matches!(ops[ops.len() - 1], MapOp::SetCtrl { index: CTRL_ACTIVE, value: 1 }));
}

#[test]
fn too_many_backends_do_not_fit() {
    let (dp, _) = started();
    let many = vec![backend(1, None); N as usize + 1];
    assert_eq!(dp.apply(&many, &[]).unwrap_err(), ApplyError::TooManyBackends { count: 651 });
    let most = vec![backend(1, None); N as usize];
    assert!(dp.apply(&most, &table_for(&most)).is_ok());
}

#[test]
fn tables_of_another_size_are_refused() {
    let (dp, _) = started();
    assert_eq!(dp.apply(&[], &[]).unwrap_err(), ApplyError::BadTableSize { size: 0 });
    let long = vec![u32::MAX; M as usize + 1];
    assert_eq!(dp.apply(&[], &long).unwrap_err(), ApplyError::BadTableSize { size: 65538 });
}

#[test]
fn reloads_are_invisible_until_the_flip() {
    let (mut dp, mut t) = started();
    let sets: [Vec<Backend>; 4] = [
        vec![backend(1, None), backend(2, None)],
        vec![backend(2, None), backend(3, None), backend(4, Some(9))],
        vec![],
        vec![backend(5, None)],
    ];
    for backends in &sets {
        let table = table_for(backends);
        let ops = dp.apply(backends, &table).unwrap();
        let before = addresses(&t);
        for op in &ops[..ops.len() - 1] {
            assert!(t.perform(op));
        }
        assert_eq!(addresses(&t), before);
        assert!(t.perform(&ops[ops.len() - 1]));
        dp.flipped();
        let expected: Vec<Option<u32>> =
            table.iter().map(|&j| backends.get(j as usize).map(|b| b.ip.to_bits())).collect();
        assert_eq!(addresses(&t), expected);
        assert_eq!(t.ctrl(CTRL_ACTIVE), dp.active);
    }
    assert_eq!(dp.active, 0);
}

#[test]
fn traffic_flows_in_the_middle_of_a_reload() {
    let (mut dp, mut t) = started();
    perform_all(&mut t, &dp.set_ports(&[80]));
    dp.ports_written(&[80]);
    let old = [backend(1, None)];
    perform_all(&mut t, &dp.apply(&old, &table_for(&old)).unwrap());
    dp.flipped();
    let new = [backend(2, None)];
    let ops = dp.apply(&new, &table_for(&new)).unwrap();
    let mut frame = vec![0u8; 54];
    frame[12] = 0x08;
    frame[14] = 0x45;
    frame[23] = 6;
    frame[37] = 80;
    frame[47] = 0x02;
    for (i, op) in ops.iter().enumerate() {
        assert!(t.perform(op));
        if i % 5000 == 0 || i + 2 > ops.len() {
            let mut f = frame.clone();
            assert_eq!(l4(&mut f, &mut t, i as u64), XDP_TX);
            let expected = if i + 1 == ops.len() { 2 } else { 1 };
            assert_eq!(f[33], expected);
        }
    }
}

#[test]
fn counters_are_summed_over_the_cpus() {
    let (dp, _) = DataPlane::new();
    let samples = [Some(vec![1, 2, 3]), Some(vec![]), None, Some(vec![u64::MAX]), Some(vec![10, 0])];
    assert_eq!(
        dp.read_stats(&samples),
        Stats {
            routed: 6,
            dropped_validation: 0,
            dropped_blocked: 0,
            dropped_rate: u64::MAX,
            dropped_nobackend: 10,
        }
    );
    assert_eq!(dp.read_stats(&[]), Stats::default());
}
