use std::time::Duration;

use l4::config::{
    default_true, Config, Discovery, Gateway, HealthCheck, Observability, Protection, ProtectionSettings, Strategy,
};

fn minimal() -> Config {
    Config {
        gateway: None,
        discovery: Discovery {
            strategy: Strategy::Static,
            target_service_name: None,
            network: None,
            target_port: None,
            sync_interval_ms: None,
            static_routes: None,
            drop_unmatched: false,
        },
        protection: None,
        health_check: None,
        observability: None,
    }
}

#[test]
fn defaults_apply_without_blocks() {
    let cfg = minimal();
    assert_eq!(cfg.listen_ports(), vec![80, 443]);
    assert_eq!(cfg.sync_interval(), Duration::from_secs(3));
    assert_eq!(cfg.xdp_mode(), "auto");
    assert_eq!(
        cfg.protection_settings(),
        ProtectionSettings { rate_max: 5000, window_ms: 1000, malformed_max: 20, block_secs: 300 }
    );
    assert!(cfg.health_check_enabled());
    assert_eq!(cfg.health_timeout(), Duration::from_millis(500));
    assert_eq!(cfg.health_probe_port(), None);
    assert_eq!(cfg.metrics_addr(), None);
    assert!(default_true());
}

#[test]
fn configured_values_win() {
    let mut cfg = minimal();
    cfg.gateway = Some(Gateway { listen_ports: vec![8080], xdp_mode: Some("skb".to_string()) });
    cfg.discovery.sync_interval_ms = Some(1500);
    cfg.protection = Some(Protection {
        enabled: true,
        rate_limit_per_sec: Some(1),
        malformed_limit: Some(2),
        window_ms: Some(3),
        block_duration_secs: Some(4),
    });
    cfg.health_check = Some(HealthCheck { enabled: true, timeout_ms: Some(70), port: Some(9) });
    cfg.observability = Some(Observability { metrics_addr: Some("0.0.0.0:9100".to_string()) });
    assert_eq!(cfg.listen_ports(), vec![8080]);
    assert_eq!(cfg.sync_interval(), Duration::from_millis(1500));
    assert_eq!(cfg.xdp_mode(), "skb");
    assert_eq!(
        cfg.protection_settings(),
        ProtectionSettings { rate_max: 1, window_ms: 3, malformed_max: 2, block_secs: 4 }
    );
    assert_eq!(cfg.health_timeout(), Duration::from_millis(70));
    assert_eq!(cfg.health_probe_port(), Some(9));
    assert_eq!(cfg.metrics_addr(), Some("0.0.0.0:9100".to_string()));
}

#[test]
fn empty_port_list_means_the_default_ports() {
    let mut cfg = minimal();
    cfg.gateway = Some(Gateway { listen_ports: vec![], xdp_mode: None });
    assert_eq!(cfg.listen_ports(), vec![80, 443]);
    assert_eq!(cfg.xdp_mode(), "auto");
}

#[test]
fn disabled_protection_switches_both_checks_off() {
    let mut cfg = minimal();
    cfg.protection = Some(Protection {
        enabled: false,
        rate_limit_per_sec: Some(1),
        malformed_limit: Some(2),
        window_ms: Some(3),
        block_duration_secs: Some(4),
    });
    assert_eq!(
        cfg.protection_settings(),
        ProtectionSettings { rate_max: 0, window_ms: 1000, malformed_max: 0, block_secs: 300 }
    );
}

#[test]
fn omitted_thresholds_have_defaults() {
    let mut cfg = minimal();
    cfg.protection = Some(Protection {
        enabled: true,
        rate_limit_per_sec: None,
        malformed_limit: Some(0),
        window_ms: None,
        block_duration_secs: None,
    });
    assert_eq!(
        cfg.protection_settings(),
        ProtectionSettings { rate_max: 5000, window_ms: 1000, malformed_max: 0, block_secs: 300 }
    );
}

#[test]
fn health_check_block_can_switch_probing_off() {
    let mut cfg = minimal();
    cfg.health_check = Some(HealthCheck { enabled: false, timeout_ms: None, port: None });
    assert!(!cfg.health_check_enabled());
    assert_eq!(cfg.health_timeout(), Duration::from_millis(500));
}

#[test]
fn observability_without_an_address_is_off() {
    let mut cfg = minimal();
    cfg.observability = Some(Observability { metrics_addr: None });
    assert_eq!(cfg.metrics_addr(), None);
}
