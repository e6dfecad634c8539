use l4::backend::Backend;
use l4::config::{Config, Discovery, Gateway, HealthCheck, StaticRoute, Strategy};
use l4::dataplane::{ApplyError, DataPlane, Stats};
use l4::discovery::{DiscoverError, DiscoveryRequest};
use l4::metrics::MetricsState;
use l4::net::Ipv4Addr;
use l4::reload::{ReloadAction, ReloadError, ReloadEvent, ReloadState};
use l4::tables::{MapOp, Tables};

fn route(ip: &str) -> StaticRoute {
    StaticRoute { ip: ip.to_string(), port: None, mac: Some("02:00:00:00:00:01".to_string()) }
}

fn cfg(ips: &[&str]) -> Config {
    Config {
        gateway: Some(Gateway { listen_ports: vec![8080, 80], xdp_mode: None }),
        discovery: Discovery {
            strategy: Strategy::Static,
            target_service_name: None,
            network: None,
            target_port: None,
            sync_interval_ms: None,
            static_routes: Some(ips.iter().map(|ip| route(ip)).collect()),
            drop_unmatched: true,
        },
        protection: None,
        health_check: None,
        observability: None,
    }
}

fn unprobed(ips: &[&str]) -> Config {
    let mut c = cfg(ips);
    c.health_check = Some(HealthCheck { enabled: false, timeout_ms: None, port: None });
    c
}

fn discovered() -> ReloadEvent {
    ReloadEvent::Discovered { containers: vec![], addrs: vec![], arp: None }
}

const STATS: Stats =
    Stats { routed: 11, dropped_validation: 12, dropped_blocked: 13, dropped_rate: 14, dropped_nobackend: 15 };

struct Run {
    dp: DataPlane,
    metrics: MetricsState,
    tables: Tables,
}

impl Run {
    fn new() -> Run {
        let (dp, ops) = DataPlane::new();
        let mut tables = Tables::new();
        for op in &ops {
            assert!(tables.perform(op));
        }
        Run { dp, metrics: MetricsState::new(), tables }
    }

    fn write(&mut self, ops: &[MapOp]) -> ReloadEvent {
        for (made, op) in ops.iter().enumerate() {
            if !self.tables.perform(op) && op.is_required() {
                return ReloadEvent::WriteFailed { made };
            }
        }
        ReloadEvent::Written
    }

    /// Reload, with the probes of the backends whose last octet is in `down`
    /// failing.
    fn reload(&mut self, cfg: &Config, down: &[u32]) -> Result<(), ReloadError> {
        let (mut state, mut action) = ReloadState::start(cfg, &self.dp);
        loop {
            let event = match &action {
                ReloadAction::Write { ops } => self.write(ops),
                ReloadAction::Discover { request } => {
                    assert!(matches!(request, DiscoveryRequest::Static));
                    discovered()
                }
                ReloadAction::Probe { targets } => ReloadEvent::Probed {
                    answers: targets.iter().map(|t| !down.contains(&(t.backend.ip.to_bits() & 0xFF))).collect(),
                },
                ReloadAction::ReadCounters => ReloadEvent::Counted { stats: STATS },
                ReloadAction::Finish => {
                    assert!(matches!(state, ReloadState::Done));
                    return Ok(());
                }
                ReloadAction::Abort { error } => {
                    assert!(matches!(state, ReloadState::Failed));
                    return Err(*error);
                }
            };
            action = state.step(cfg, &mut self.dp, &mut self.metrics, &event);
        }
    }

    fn reached(&self) -> Vec<u32> {
        let mut found: Vec<u32> =
            (0..65537).filter_map(|h| self.tables.lookup(h)).map(|n| n.daddr & 0xFF).collect();
        found.sort();
        found.dedup();
        found
    }
}

#[test]
fn a_reload_installs_the_healthy_backends() {
    let mut run = Run::new();
    let c = cfg(&["10.0.0.1", "10.0.0.2", "10.0.0.3"]);
    assert_eq!(run.reload(&c, &[2]), Ok(()));
    assert_eq!(run.reached(), vec![1, 3]);
    assert_eq!(run.dp.active, 1);
    assert_eq!(run.dp.installed_ports, vec![8080, 80]);
    assert!(run.tables.is_listed(80) && run.tables.is_listed(8080));
    assert_eq!(&run.tables.ctrl[..6], &[1, 1, 5000, 1000, 20, 300]);
    let m = run.metrics;
    assert_eq!((m.backends_total, m.backends_healthy, m.ready), (3, 2, true));
    assert_eq!(
        [m.routed, m.dropped_validation, m.dropped_blocked, m.dropped_rate, m.dropped_nobackend],
        [11, 12, 13, 14, 15]
    );
}

#[test]
fn a_crashed_backend_is_evicted_and_comes_back() {
    let mut run = Run::new();
    let c = cfg(&["10.0.0.1", "10.0.0.2"]);
    for (down, expected) in [(vec![], vec![1, 2]), (vec![1], vec![2]), (vec![], vec![1, 2]), (vec![1, 2], vec![])] {
        assert_eq!(run.reload(&c, &down), Ok(()));
        assert_eq!(run.reached(), expected);
        assert_eq!(run.metrics.ready, !expected.is_empty());
    }
    assert_eq!(run.dp.active, 0);
}

#[test]
fn without_health_checks_every_backend_is_installed() {
    let mut run = Run::new();
    assert_eq!(run.reload(&unprobed(&["10.0.0.1", "10.0.0.2"]), &[1, 2]), Ok(()));
    assert_eq!(run.reached(), vec![1, 2]);
    assert_eq!(run.metrics.backends_healthy, 2);
}

#[test]
fn probes_go_to_the_first_listen_port_by_default() {
    let mut run = Run::new();
    let mut c = cfg(&["10.0.0.1", "10.0.0.2:3000"]);
    let mut state = ReloadState::Discovering;
    match state.step(&c, &mut run.dp, &mut run.metrics, &discovered()) {
        ReloadAction::Probe { targets } => {
            assert_eq!(targets.iter().map(|t| t.port).collect::<Vec<_>>(), vec![8080, 3000]);
            assert_eq!(targets[1].backend.key(), "10.0.0.2:3000");
        }
        other => panic!("{other:?}"),
    }
    assert!(matches!(state, ReloadState::Probing { backends } if backends.len() == 2));
    c.health_check = Some(HealthCheck { enabled: true, timeout_ms: None, port: Some(9) });
    let mut state = ReloadState::Discovering;
    match state.step(&c, &mut run.dp, &mut run.metrics, &discovered()) {
        ReloadAction::Probe { targets } => assert!(targets.iter().all(|t| t.port == 9)),
        other => panic!("{other:?}"),
    }
}

#[test]
fn bad_discovery_ends_the_reload() {
    let mut run = Run::new();
    let mut c = cfg(&[]);
    c.discovery.static_routes = None;
    assert_eq!(run.reload(&c, &[]), Err(ReloadError::Discover { error: DiscoverError::NoStaticRoutes }));
    c.discovery.strategy = Strategy::Docker;
    assert_eq!(run.reload(&c, &[]), Err(ReloadError::Discover { error: DiscoverError::NoDockerTarget }));
    c.discovery.strategy = Strategy::Dns;
    assert_eq!(run.reload(&c, &[]), Err(ReloadError::Discover { error: DiscoverError::NoDnsTarget }));
    assert_eq!(run.dp.active, 0);
}

#[test]
fn too_many_backends_end_the_reload() {
    let mut run = Run::new();
    let ips: Vec<String> = (0..651).map(|i| format!("10.0.{}.{}", i / 256, i % 256)).collect();
    let refs: Vec<&str> = ips.iter().map(|s| s.as_str()).collect();
    let error = ApplyError::TooManyBackends { count: 651 };
    assert_eq!(run.reload(&unprobed(&refs), &[]), Err(ReloadError::Apply { error }));
    assert_eq!(run.reached(), Vec::<u32>::new());
    assert_eq!(run.reload(&unprobed(&refs[..650]), &[]), Ok(()));
    assert_eq!(run.metrics.backends_total, 650);
}

#[test]
fn a_failed_reload_keeps_the_old_backends() {
    let mut run = Run::new();
    assert_eq!(run.reload(&cfg(&["10.0.0.1"]), &[]), Ok(()));
    let before = run.metrics;
    assert!(run.reload(&cfg(&["nowhere"]), &[]).is_err());
    assert_eq!(run.reached(), vec![1]);
    assert_eq!(format!("{:?}", run.metrics), format!("{before:?}"));
}

#[test]
fn a_failed_write_leaves_the_record_alone() {
    let c = cfg(&["10.0.0.1"]);
    for before in [
        ReloadState::Ports,
        ReloadState::Settings,
        ReloadState::Discovering,
        ReloadState::Probing { backends: vec![] },
        ReloadState::Installing { total: 1, healthy: 1 },
        ReloadState::Counting { total: 1, healthy: 1 },
    ] {
        let mut run = Run::new();
        let mut state = before;
        let action = state.step(&c, &mut run.dp, &mut run.metrics, &ReloadEvent::ActionFailed);
        assert!(matches!(action, ReloadAction::Abort { error: ReloadError::ActionFailed }));
        assert!(matches!(state, ReloadState::Failed));
        assert_eq!(run.dp.active, 0);
        assert!(run.dp.installed_ports.is_empty());
        assert!(!run.metrics.ready);
    }
}

#[test]
fn full_port_table_fails_the_reload() {
    let mut run = Run::new();
    let mut c = cfg(&["10.0.0.1"]);
    c.gateway = Some(Gateway { listen_ports: (1..=65).collect(), xdp_mode: None });
    assert_eq!(run.reload(&c, &[]), Err(ReloadError::ActionFailed));
    assert_eq!(run.dp.installed_ports, (1..=64).collect::<Vec<u16>>());
    // The next reload makes up for it.
    c.gateway = Some(Gateway { listen_ports: vec![2, 65], xdp_mode: None });
    assert_eq!(run.reload(&c, &[]), Err(ReloadError::ActionFailed));
    c.gateway = Some(Gateway { listen_ports: vec![2], xdp_mode: None });
    assert_eq!(run.reload(&c, &[]), Ok(()));
    assert_eq!((1..=65).filter(|&p| run.tables.is_listed(p)).collect::<Vec<u16>>(), vec![2]);
}

#[test]
fn answers_are_held_against_the_discovered_backends() {
    let mut run = Run::new();
    let c = cfg(&["10.0.0.1", "10.0.0.2"]);
    let mut state = ReloadState::Discovering;
    state.step(&c, &mut run.dp, &mut run.metrics, &discovered());
    let event = ReloadEvent::Probed { answers: vec![false, true, true] };
    match state.step(&c, &mut run.dp, &mut run.metrics, &event) {
        ReloadAction::Write { ops } => {
            let nodes: Vec<u32> = ops
                .iter()
                .filter_map(|op| match op {
                    MapOp::InsertBackend { node, .. } => Some(node.daddr),
                    _ => None,
                })
                .collect();
            assert_eq!(nodes, vec![0x0A00_0002]);
        }
        other => panic!("{other:?}"),
    }
    assert!(matches!(state, ReloadState::Installing { total: 2, healthy: 1 }));
}

#[test]
fn a_finished_reload_takes_no_more_events() {
    let mut run = Run::new();
    let mut state = ReloadState::Done;
    let action = state.step(&cfg(&[]), &mut run.dp, &mut run.metrics, &ReloadEvent::Written);
    assert!(matches!(action, ReloadAction::Abort { error: ReloadError::ActionFailed }));
}

#[test]
fn a_new_mac_keeps_the_routing() {
    let mut run = Run::new();
    let mut c = unprobed(&["10.0.0.1", "10.0.0.2"]);
    assert_eq!(run.reload(&c, &[]), Ok(()));
    let before: Vec<u32> = (0..65537).map(|h| run.tables.lookup(h).unwrap().daddr).collect();
    if let Some(routes) = &mut c.discovery.static_routes {
        routes[0].mac = Some("02:00:00:00:00:99".to_string());
    }
    assert_eq!(run.reload(&c, &[]), Ok(()));
    let after: Vec<u32> = (0..65537).map(|h| run.tables.lookup(h).unwrap().daddr).collect();
    assert_eq!(before, after);
    let first = Backend { ip: Ipv4Addr::new(10, 0, 0, 1), port: None, mac: [2, 0, 0, 0, 0, 0x99] };
    let node = (0..65537).filter_map(|h| run.tables.lookup(h)).find(|n| n.daddr == first.ip.to_bits());
    assert_eq!(node.unwrap().dmac, first.mac);
}
