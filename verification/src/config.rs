//! Configuration of the load balancer.
//!
//! A `gateway` block of public ports to intercept and a `discovery` block
//! describing where the backends live (static list, Docker, or DNS), plus
//! optional `protection`, `health_check`, and `observability` blocks.

use vstd::prelude::*;
use core::time::Duration;

verus! {

/// The value of `Duration::from_millis` on `millis`.
pub uninterp spec fn duration_from_millis(millis: u64) -> Duration;

/// `core::time::Duration::from_millis`: the duration is taken to be a function
/// of the number of milliseconds alone.
pub assume_specification[ core::time::Duration::from_millis ](millis: u64) -> (d: Duration)
    ensures
        d == duration_from_millis(millis),
;

/// What `enabled` stands for in a block that does not give it.
pub fn default_true() -> (b: bool)
    ensures
        b == true,
{
    true
}

/// How backends are discovered.
#[derive(Debug, Clone, Copy, PartialEq, Eq, Structural)]
pub enum Strategy {
    /// A fixed list of backends from `static_routes`.
    Static,
    /// Containers discovered via the Docker API.
    Docker,
    /// Hostname(s) resolved via DNS.
    Dns,
}

/// Public-facing ports to intercept on the host.
#[derive(Debug, Clone)]
pub struct Gateway {
    pub listen_ports: Vec<u16>,
    /// XDP attach mode: "auto" (default), "skb", "drv"/"native", or "hw".
    pub xdp_mode: Option<String>,
}

/// A statically configured backend. `ip` may be `"1.2.3.4"` or `"1.2.3.4:3000"`;
/// an explicit `port` field takes precedence. `mac` is optional and resolved
/// from the host neighbour table when omitted.
#[derive(Debug, Clone)]
pub struct StaticRoute {
    pub ip: String,
    pub port: Option<u16>,
    pub mac: Option<String>,
}

#[derive(Debug, Clone)]
pub struct Discovery {
    pub strategy: Strategy,
    pub target_service_name: Option<String>,
    pub network: Option<String>,
    pub target_port: Option<u16>,
    pub sync_interval_ms: Option<u64>,
    pub static_routes: Option<Vec<StaticRoute>>,
    pub drop_unmatched: bool,
}

/// Per-source-IP abuse protection. A source that exceeds `rate_limit_per_sec`
/// valid requests or `malformed_limit` malformed packets within `window_ms` is
/// blacklisted for `block_duration_secs`.
#[derive(Debug, Clone)]
pub struct Protection {
    pub enabled: bool,
    pub rate_limit_per_sec: Option<u32>,
    pub malformed_limit: Option<u32>,
    pub window_ms: Option<u32>,
    pub block_duration_secs: Option<u32>,
}

/// Active TCP health checking of backends.
#[derive(Debug, Clone)]
pub struct HealthCheck {
    pub enabled: bool,
    pub timeout_ms: Option<u64>,
    /// Probe this port instead of the backend's routed/listen port.
    pub port: Option<u16>,
}

/// Optional observability endpoint. Disabled unless `metrics_addr` is set.
#[derive(Debug, Clone)]
pub struct Observability {
    /// e.g. "0.0.0.0:9100", serves `/metrics` (Prometheus) and `/healthz`.
    pub metrics_addr: Option<String>,
}

#[derive(Debug, Clone)]
pub struct Config {
    pub gateway: Option<Gateway>,
    pub discovery: Discovery,
    pub protection: Option<Protection>,
    pub health_check: Option<HealthCheck>,
    pub observability: Option<Observability>,
}

/// Resolved protection thresholds pushed into the data plane. `rate_max` /
/// `malformed_max` of `0` disable the respective check.
#[derive(Debug, Clone, Copy, PartialEq, Eq, Structural)]
pub struct ProtectionSettings {
    pub rate_max: u32,
    pub window_ms: u32,
    pub malformed_max: u32,
    pub block_secs: u32,
}

/// The value of an optional field, or what stands for it when it is left out.
pub open spec fn or_default<T>(field: Option<T>, default: T) -> T {
    match field {
        Some(value) => value,
        None => default,
    }
}

impl Config {
    /// The configured listen ports, or HTTP and HTTPS.
    pub open spec fn spec_listen_ports(&self) -> Seq<u16> {
        if self.gateway is Some && self.gateway->0.listen_ports@.len() > 0 {
            self.gateway->0.listen_ports@
        } else {
            seq![80u16, 443u16]
        }
    }

    /// The configured thresholds. A disabled block switches both checks off;
    /// without a block the defaults apply.
    pub open spec fn spec_protection(&self) -> ProtectionSettings {
        match self.protection {
            None => ProtectionSettings {
                rate_max: 5000,
                window_ms: 1000,
                malformed_max: 20,
                block_secs: 300,
            },
            Some(p) => if !p.enabled {
                ProtectionSettings {
                    rate_max: 0,
                    window_ms: 1000,
                    malformed_max: 0,
                    block_secs: 300,
                }
            } else {
                ProtectionSettings {
                    rate_max: or_default(p.rate_limit_per_sec, 5000),
                    window_ms: or_default(p.window_ms, 1000),
                    malformed_max: or_default(p.malformed_limit, 20),
                    block_secs: or_default(p.block_duration_secs, 300),
                }
            },
        }
    }

    /// Whether backends are probed; on unless a block says otherwise.
    pub open spec fn spec_health_check_enabled(&self) -> bool {
        self.health_check is Some ==> self.health_check->0.enabled
    }

    /// The probe port that overrides the backends' own, if any.
    pub open spec fn spec_health_probe_port(&self) -> Option<u16> {
        match self.health_check {
            Some(h) => h.port,
            None => None,
        }
    }

    /// Milliseconds between two reloads.
    pub open spec fn spec_sync_interval_ms(&self) -> u64 {
        or_default(self.discovery.sync_interval_ms, 3000)
    }

    /// Milliseconds a probe may take.
    pub open spec fn spec_health_timeout_ms(&self) -> u64 {
        match self.health_check {
            Some(h) => or_default(h.timeout_ms, 500),
            None => 500,
        }
    }

    /// The configured attach mode, or the automatic choice.
    pub open spec fn spec_xdp_mode(&self) -> Seq<char> {
        match self.gateway {
            Some(g) => match g.xdp_mode {
                Some(mode) => mode@,
                None => "auto"@,
            },
            None => "auto"@,
        }
    }

    /// The address of the observability endpoint, if there is to be one.
    pub open spec fn spec_metrics_addr(&self) -> Option<String> {
        match self.observability {
            Some(o) => o.metrics_addr,
            None => None,
        }
    }

    /// Ports to intercept, defaulting to HTTP/HTTPS.
    pub fn listen_ports(&self) -> (ports: Vec<u16>)
        ensures
            ports@ == self.spec_listen_ports(),
            ports@.len() > 0,
    {
        if let Some(g) = &self.gateway {
            if !g.listen_ports.is_empty() {
                let ports = g.listen_ports.clone();
                assert(ports@ =~= g.listen_ports@);
                return ports;
            }
        }
        let ports: Vec<u16> = vec![80, 443];
        assert(ports@ =~= seq![80u16, 443u16]);
        ports
    }

    /// Discovery poll interval, defaulting to 3s.
    pub fn sync_interval(&self) -> (interval: Duration)
        ensures
            interval == duration_from_millis(or_default(self.discovery.sync_interval_ms, 3000)),
            interval == duration_from_millis(self.spec_sync_interval_ms()),
    {
        Duration::from_millis(self.discovery.sync_interval_ms.unwrap_or(3000))
    }

    /// XDP attach mode, defaulting to "auto".
    pub fn xdp_mode(&self) -> (mode: &str)
        ensures
            mode@ == (if self.gateway is Some && self.gateway->0.xdp_mode is Some {
                self.gateway->0.xdp_mode->0@
            } else {
                "auto"@
            }),
            mode@ == self.spec_xdp_mode(),
    {
        if let Some(g) = &self.gateway {
            if let Some(mode) = &g.xdp_mode {
                return mode.as_str();
            }
        }
        "auto"
    }

    /// Resolved protection thresholds. Defaults to enabled with conservative,
    /// abuse-level limits so it never trips on legitimate per-client traffic.
    pub fn protection_settings(&self) -> (settings: ProtectionSettings)
        ensures
            settings == self.spec_protection(),
    {
        match &self.protection {
            None => ProtectionSettings {
                rate_max: 5000,
                window_ms: 1000,
                malformed_max: 20,
                block_secs: 300,
            },
            Some(p) => if !p.enabled {
                ProtectionSettings {
                    rate_max: 0,
                    window_ms: 1000,
                    malformed_max: 0,
                    block_secs: 300,
                }
            } else {
                ProtectionSettings {
                    rate_max: p.rate_limit_per_sec.unwrap_or(5000),
                    window_ms: p.window_ms.unwrap_or(1000),
                    malformed_max: p.malformed_limit.unwrap_or(20),
                    block_secs: p.block_duration_secs.unwrap_or(300),
                }
            },
        }
    }

    /// Whether active backend health checking is enabled (default true).
    pub fn health_check_enabled(&self) -> (enabled: bool)
        ensures
            enabled == self.spec_health_check_enabled(),
    {
        match &self.health_check {
            Some(h) => h.enabled,
            None => default_true(),
        }
    }

    /// Health-check connect timeout, defaulting to 500ms.
    pub fn health_timeout(&self) -> (timeout: Duration)
        ensures
            timeout == duration_from_millis(
                if self.health_check is Some {
                    or_default(self.health_check->0.timeout_ms, 500)
                } else {
                    500
                },
            ),
            timeout == duration_from_millis(self.spec_health_timeout_ms()),
    {
        let millis: u64 = match &self.health_check {
            Some(h) => h.timeout_ms.unwrap_or(500),
            None => 500,
        };
        Duration::from_millis(millis)
    }

    /// Explicit health-check probe port override, if any.
    pub fn health_probe_port(&self) -> (port: Option<u16>)
        ensures
            port == self.spec_health_probe_port(),
    {
        match &self.health_check {
            Some(h) => h.port,
            None => None,
        }
    }

    /// Metrics/health bind address, if observability is enabled.
    pub fn metrics_addr(&self) -> (addr: Option<String>)
        ensures
            match self.observability {
                Some(o) => addr == o.metrics_addr,
                None => addr is None,
            },
            addr == self.spec_metrics_addr(),
    {
        match &self.observability {
            Some(o) => match &o.metrics_addr {
                Some(addr) => Some(addr.clone()),
                None => None,
            },
            None => None,
        }
    }
}

/// Law: the configured ports are intercepted, all of them and in their order; without any
/// the ports of HTTP and HTTPS are.
pub proof fn configured_ports_are_intercepted(cfg: Config)
    ensures
        cfg.gateway is None ==> cfg.spec_listen_ports() == seq![80u16, 443u16],
        cfg.gateway is Some && cfg.gateway->0.listen_ports@.len() == 0 ==> cfg.spec_listen_ports()
            == seq![80u16, 443u16],
        cfg.gateway is Some && cfg.gateway->0.listen_ports@.len() > 0 ==> cfg.spec_listen_ports()
            == cfg.gateway->0.listen_ports@,
{
}

/// Law: each threshold that is configured is taken as it stands, whatever its value, and
/// each that is left out has its default. A disabled block switches both limits off.
pub proof fn configured_thresholds_apply(cfg: Config)
    ensures
        ({
            let s = cfg.spec_protection();
            &&& cfg.protection is None ==> s.rate_max == 5000 && s.window_ms == 1000
                && s.malformed_max == 20 && s.block_secs == 300
            &&& cfg.protection matches Some(p) ==> {
                &&& !p.enabled ==> s.rate_max == 0 && s.malformed_max == 0
                &&& p.enabled && p.rate_limit_per_sec is Some ==> s.rate_max
                    == p.rate_limit_per_sec->0
                &&& p.enabled && p.rate_limit_per_sec is None ==> s.rate_max == 5000
                &&& p.enabled && p.window_ms is Some ==> s.window_ms == p.window_ms->0
                &&& p.enabled && p.window_ms is None ==> s.window_ms == 1000
                &&& p.enabled && p.malformed_limit is Some ==> s.malformed_max
                    == p.malformed_limit->0
                &&& p.enabled && p.malformed_limit is None ==> s.malformed_max == 20
                &&& p.enabled && p.block_duration_secs is Some ==> s.block_secs
                    == p.block_duration_secs->0
                &&& p.enabled && p.block_duration_secs is None ==> s.block_secs == 300
            }
        }),
{
}

/// Law: backends are probed unless a block switches that off, and on the port that the
/// block gives, if it gives one.
pub proof fn configured_probes_apply(cfg: Config)
    ensures
        cfg.health_check is None ==> cfg.spec_health_check_enabled()
            && cfg.spec_health_probe_port() is None,
        cfg.health_check matches Some(h) ==> {
            &&& cfg.spec_health_check_enabled() == h.enabled
            &&& cfg.spec_health_probe_port() == h.port
        },
{
}

/// Law: an optional value that is given is taken as it stands.
pub proof fn given_values_are_taken<T>(value: T, default: T)
    ensures
        or_default(Some(value), default) == value,
        or_default(None, default) == default,
{
}

/// Law: the times that are configured are taken as they stand, and are 3 seconds between
/// two reloads and half a second for a probe where nothing is configured.
pub proof fn configured_times_apply(cfg: Config)
    ensures
        cfg.discovery.sync_interval_ms is Some ==> cfg.spec_sync_interval_ms()
            == cfg.discovery.sync_interval_ms->0,
        cfg.discovery.sync_interval_ms is None ==> cfg.spec_sync_interval_ms() == 3000,
        cfg.health_check is None ==> cfg.spec_health_timeout_ms() == 500,
        cfg.health_check matches Some(h) ==> {
            &&& h.timeout_ms is Some ==> cfg.spec_health_timeout_ms() == h.timeout_ms->0
            &&& h.timeout_ms is None ==> cfg.spec_health_timeout_ms() == 500
        },
{
}

/// Law: the attach mode is the configured text, whatever it is, and `auto` without one.
pub proof fn configured_modes_apply(cfg: Config)
    ensures
        cfg.gateway is None ==> cfg.spec_xdp_mode() == "auto"@,
        cfg.gateway matches Some(g) ==> {
            &&& g.xdp_mode is Some ==> cfg.spec_xdp_mode() == g.xdp_mode->0@
            &&& g.xdp_mode is None ==> cfg.spec_xdp_mode() == "auto"@
        },
{
}

/// Law: the endpoint is served on the configured address, and not at all without one.
pub proof fn configured_endpoint_applies(cfg: Config)
    ensures
        cfg.observability is None ==> cfg.spec_metrics_addr() is None,
        cfg.observability matches Some(o) ==> cfg.spec_metrics_addr() == o.metrics_addr,
{
}

} // verus!
