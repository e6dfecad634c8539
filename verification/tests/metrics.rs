use l4::dataplane::Stats;
use l4::metrics::MetricsState;

fn busy() -> MetricsState {
    let mut m = MetricsState::new();
    let s = Stats { routed: 1, dropped_validation: 2, dropped_blocked: 30, dropped_rate: 4, dropped_nobackend: u64::MAX };
    m.refresh(s, 6, 5);
    m
}

const PAGE: &str = "# HELP l4_packets_routed_total Packets DNAT'd to a backend.
# TYPE l4_packets_routed_total counter
l4_packets_routed_total 1
# HELP l4_packets_dropped_total Packets dropped, by reason.
# TYPE l4_packets_dropped_total counter
l4_packets_dropped_total{reason=\"validation\"} 2
l4_packets_dropped_total{reason=\"blocked\"} 30
l4_packets_dropped_total{reason=\"rate\"} 4
l4_packets_dropped_total{reason=\"no_backend\"} 18446744073709551615
# HELP l4_backends Backend counts.
# TYPE l4_backends gauge
l4_backends{state=\"total\"} 6
l4_backends{state=\"healthy\"} 5
";

#[test]
fn exposition_lists_every_counter() {
    assert_eq!(busy().render(), PAGE);
}

#[test]
fn metrics_page_is_served() {
    let expected = format!(
        "HTTP/1.1 200 OK\r\nContent-Type: text/plain; version=0.0.4\r\nContent-Length: {}\r\nConnection: close\r\n\r\n{}",
        PAGE.len(),
        PAGE
    );
    assert_eq!(busy().respond("GET /metrics HTTP/1.1\r\nHost: x\r\n\r\n"), expected);
    assert_eq!(busy().answer(b"GET /metrics HTTP/1.1\r\n\r\n"), expected);
}

const READY: &str = "HTTP/1.1 200 OK\r\nContent-Type: text/plain\r\nContent-Length: 3\r\nConnection: close\r\n\r\nok\n";
const NOT_READY: &str = "HTTP/1.1 503 Service Unavailable\r\nContent-Type: text/plain\r\nContent-Length: 20\r\nConnection: close\r\n\r\nno healthy backends\n";
const NOT_FOUND: &str = "HTTP/1.1 404 Not Found\r\nContent-Type: text/plain\r\nContent-Length: 10\r\nConnection: close\r\n\r\nnot found\n";

#[test]
fn readiness_depends_on_healthy_backends() {
    let request = "GET /healthz HTTP/1.1\r\n\r\n";
    assert_eq!(MetricsState::new().respond(request), NOT_READY);
    let mut m = busy();
    assert_eq!(m.respond(request), READY);
    m.refresh(Stats::default(), 6, 0);
    assert!(!m.ready);
    assert_eq!(m.respond(request), NOT_READY);
}

#[test]
fn other_paths_are_not_found() {
    let m = busy();
    for request in ["", "GET", "GET / HTTP/1.1", "GET /metrics/ HTTP/1.1", "GET /Healthz", "/metrics"] {
        assert_eq!(m.respond(request), NOT_FOUND, "{request:?}");
    }
}

#[test]
fn the_method_does_not_matter() {
    assert_eq!(busy().respond("  POST\t/healthz"), READY);
}

#[test]
fn requests_need_not_be_valid_utf8() {
    let m = busy();
    assert_eq!(m.answer(b"G\xFF\xFET /healthz HTTP/1.1\r\n"), READY);
    assert_eq!(m.answer(b"GET /health\xFFz HTTP/1.1\r\n"), NOT_FOUND);
    // An unfinished character is replaced, not read as white space.
    assert_eq!(m.answer(b"GET\xE2\x80 /healthz"), READY);
    assert_eq!(m.answer("GET\u{2003}/healthz".as_bytes()), READY);
    assert_eq!(m.answer(&[]), NOT_FOUND);
}
