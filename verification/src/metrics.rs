//! Optional, opt-in observability endpoint: what it reports and how it answers.
//!
//!   - `GET /metrics`  Prometheus text exposition of data-plane counters.
//!   - `GET /healthz`  200 with at least one healthy backend, else 503.

use vstd::prelude::*;
use vstd::utf8::{decode_utf8, encode_utf8, valid_utf8};
use crate::dataplane::Stats;
use crate::text::{
    chars_of, contents, decimal, decimal_reads_back, fields, lemma_decimal, push_decimal, same_text, split_fields,
};

verus! {

/// The value of `String::from_utf8_lossy` on `bytes`.
pub uninterp spec fn utf8_lossy(bytes: Seq<u8>) -> Seq<char>;

/// Calls `String::from_utf8_lossy`. Valid UTF-8 comes out decoded; what replaces
/// invalid sequences is taken to be a function of the bytes alone.
#[verifier::external_body]
fn from_utf8_lossy(bytes: &[u8]) -> (s: String)
    ensures
        s@ == utf8_lossy(bytes@),
        valid_utf8(bytes@) ==> s@ == decode_utf8(bytes@),
{
    String::from_utf8_lossy(bytes).into_owned()
}

/// Snapshot of counters, updated each reload from the data plane.
#[derive(Debug, Clone, Copy)]
pub struct MetricsState {
    pub routed: u64,
    pub dropped_validation: u64,
    pub dropped_blocked: u64,
    pub dropped_rate: u64,
    pub dropped_nobackend: u64,
    pub backends_total: u64,
    pub backends_healthy: u64,
    /// Readiness: true once the data plane has at least one healthy backend.
    pub ready: bool,
}

/// The Prometheus text exposition of a snapshot.
pub open spec fn exposition(m: MetricsState) -> Seq<char> {
    "# HELP l4_packets_routed_total Packets DNAT'd to a backend.\n# TYPE l4_packets_routed_total counter\nl4_packets_routed_total "@
        + decimal(m.routed as nat)
        + "\n# HELP l4_packets_dropped_total Packets dropped, by reason.\n# TYPE l4_packets_dropped_total counter\nl4_packets_dropped_total{reason=\"validation\"} "@
        + decimal(m.dropped_validation as nat)
        + "\nl4_packets_dropped_total{reason=\"blocked\"} "@ + decimal(m.dropped_blocked as nat)
        + "\nl4_packets_dropped_total{reason=\"rate\"} "@ + decimal(m.dropped_rate as nat)
        + "\nl4_packets_dropped_total{reason=\"no_backend\"} "@ + decimal(
        m.dropped_nobackend as nat,
    )
        + "\n# HELP l4_backends Backend counts.\n# TYPE l4_backends gauge\nl4_backends{state=\"total\"} "@
        + decimal(m.backends_total as nat) + "\nl4_backends{state=\"healthy\"} "@ + decimal(
        m.backends_healthy as nat,
    ) + "\n"@
}

/// The path of an HTTP request: its second field.
pub open spec fn request_path(request: Seq<char>) -> Seq<char> {
    let f = fields(request);
    if f.len() > 1 {
        f[1]
    } else {
        "/"@
    }
}

/// Status, content type and body of the answer to a request for `path`.
pub open spec fn page(path: Seq<char>, m: MetricsState) -> (Seq<char>, Seq<char>, Seq<char>) {
    if path == "/metrics"@ {
        ("200 OK"@, "text/plain; version=0.0.4"@, exposition(m))
    } else if path == "/healthz"@ {
        if m.ready {
            ("200 OK"@, "text/plain"@, "ok\n"@)
        } else {
            ("503 Service Unavailable"@, "text/plain"@, "no healthy backends\n"@)
        }
    } else {
        ("404 Not Found"@, "text/plain"@, "not found\n"@)
    }
}

/// An HTTP response. The content length counts the bytes of the body.
pub open spec fn http_response(
    status: Seq<char>,
    content_type: Seq<char>,
    body: Seq<char>,
) -> Seq<char> {
    "HTTP/1.1 "@ + status + "\r\nContent-Type: "@ + content_type + "\r\nContent-Length: "@ + decimal(
        (encode_utf8(body).len() as usize) as nat,
    ) + "\r\nConnection: close\r\n\r\n"@ + body
}

/// The response to a request.
pub open spec fn response_to(request: Seq<char>, m: MetricsState) -> Seq<char> {
    let p = page(request_path(request), m);
    http_response(p.0, p.1, p.2)
}

impl MetricsState {
    /// Nothing counted yet, not ready.
    pub fn new() -> (m: Self)
        ensures
            m == (MetricsState {
                routed: 0,
                dropped_validation: 0,
                dropped_blocked: 0,
                dropped_rate: 0,
                dropped_nobackend: 0,
                backends_total: 0,
                backends_healthy: 0,
                ready: false,
            }),
    {
        MetricsState {
            routed: 0,
            dropped_validation: 0,
            dropped_blocked: 0,
            dropped_rate: 0,
            dropped_nobackend: 0,
            backends_total: 0,
            backends_healthy: 0,
            ready: false,
        }
    }

    /// The snapshot after a reload that found `total` backends, `healthy` of them
    /// healthy, and read the counters `s`.
    pub open spec fn refreshed(s: Stats, total: u64, healthy: u64) -> MetricsState {
        MetricsState {
            routed: s.routed,
            dropped_validation: s.dropped_validation,
            dropped_blocked: s.dropped_blocked,
            dropped_rate: s.dropped_rate,
            dropped_nobackend: s.dropped_nobackend,
            backends_total: total,
            backends_healthy: healthy,
            ready: healthy > 0,
        }
    }

    /// Take over the outcome of a reload.
    pub fn refresh(&mut self, s: Stats, total: u64, healthy: u64)
        ensures
            *final(self) == MetricsState::refreshed(s, total, healthy),
    {
        self.routed = s.routed;
        self.dropped_validation = s.dropped_validation;
        self.dropped_blocked = s.dropped_blocked;
        self.dropped_rate = s.dropped_rate;
        self.dropped_nobackend = s.dropped_nobackend;
        self.backends_total = total;
        self.backends_healthy = healthy;
        self.ready = healthy > 0;
    }

    /// The Prometheus text exposition.
    pub fn render(&self) -> (out: String)
        ensures
            out@ == exposition(*self),
    {
        let mut out = String::new();
        out.append(
            "# HELP l4_packets_routed_total Packets DNAT'd to a backend.\n# TYPE l4_packets_routed_total counter\nl4_packets_routed_total ",
        );
        push_decimal(&mut out, self.routed);
        out.append(
            "\n# HELP l4_packets_dropped_total Packets dropped, by reason.\n# TYPE l4_packets_dropped_total counter\nl4_packets_dropped_total{reason=\"validation\"} ",
        );
        push_decimal(&mut out, self.dropped_validation);
        out.append("\nl4_packets_dropped_total{reason=\"blocked\"} ");
        push_decimal(&mut out, self.dropped_blocked);
        out.append("\nl4_packets_dropped_total{reason=\"rate\"} ");
        push_decimal(&mut out, self.dropped_rate);
        out.append("\nl4_packets_dropped_total{reason=\"no_backend\"} ");
        push_decimal(&mut out, self.dropped_nobackend);
        out.append(
            "\n# HELP l4_backends Backend counts.\n# TYPE l4_backends gauge\nl4_backends{state=\"total\"} ",
        );
        push_decimal(&mut out, self.backends_total);
        out.append("\nl4_backends{state=\"healthy\"} ");
        push_decimal(&mut out, self.backends_healthy);
        out.append("\n");
        assert(out@ =~= exposition(*self));
        out
    }

    /// Answer a request given as text.
    pub fn respond(&self, request: &str) -> (response: String)
        ensures
            response@ == response_to(request@, *self),
    {
        let chars = chars_of(request);
        let words = split_fields(chars.as_slice());
        assert(contents(words@) == fields(request@));
        let is_metrics: bool;
        let is_health: bool;
        if words.len() > 1 {
            assert(words@[1]@ == fields(request@)[1]);
            is_metrics = same_text(words[1].as_slice(), "/metrics");
            is_health = same_text(words[1].as_slice(), "/healthz");
        } else {
            proof {
                reveal_strlit("/");
                reveal_strlit("/metrics");
                reveal_strlit("/healthz");
                assert("/"@.len() != "/metrics"@.len());
                assert("/"@.len() != "/healthz"@.len());
            }
            is_metrics = false;
            is_health = false;
        }
        let ghost path = request_path(request@);
        assert(is_metrics == (path == "/metrics"@));
        assert(is_health == (path == "/healthz"@));
        if is_metrics {
            let body = self.render();
            format_response("200 OK", "text/plain; version=0.0.4", body.as_str())
        } else if is_health {
            if self.ready {
                format_response("200 OK", "text/plain", "ok\n")
            } else {
                format_response("503 Service Unavailable", "text/plain", "no healthy backends\n")
            }
        } else {
            format_response("404 Not Found", "text/plain", "not found\n")
        }
    }

    /// Answer the bytes of a request.
    pub fn answer(&self, request: &[u8]) -> (response: String)
        ensures
            response@ == response_to(utf8_lossy(request@), *self),
            valid_utf8(request@) ==> response@ == response_to(decode_utf8(request@), *self),
    {
        let text = from_utf8_lossy(request);
        self.respond(text.as_str())
    }
}

fn format_response(status: &str, content_type: &str, body: &str) -> (out: String)
    ensures
        out@ == http_response(status@, content_type@, body@),
{
    let mut out = String::new();
    out.append("HTTP/1.1 ");
    out.append(status);
    out.append("\r\nContent-Type: ");
    out.append(content_type);
    out.append("\r\nContent-Length: ");
    push_decimal(&mut out, body.len() as u64);
    out.append("\r\nConnection: close\r\n\r\n");
    out.append(body);
    assert(out@ =~= http_response(status@, content_type@, body@));
    out
}

/// Law: the readiness probe answers 200 exactly when the last reload found a
/// healthy backend, and 503 otherwise.
pub proof fn readiness_follows_health(s: Stats, total: u64, healthy: u64)
    ensures
        page("/healthz"@, MetricsState::refreshed(s, total, healthy)).0 == (if healthy > 0 {
            "200 OK"@
        } else {
            "503 Service Unavailable"@
        }),
{
    reveal_strlit("/healthz");
    reveal_strlit("/metrics");
    assert("/healthz"@[1] != "/metrics"@[1]);
}

/// Law: every counter stands behind its own name, whatever its value.
pub proof fn counters_are_exposed(m: MetricsState)
    ensures
        exposition(m) == "# HELP l4_packets_routed_total Packets DNAT'd to a backend.\n# TYPE l4_packets_routed_total counter\nl4_packets_routed_total "@
            + decimal(m.routed as nat)
            + "\n# HELP l4_packets_dropped_total Packets dropped, by reason.\n# TYPE l4_packets_dropped_total counter\nl4_packets_dropped_total{reason=\"validation\"} "@
            + decimal(m.dropped_validation as nat)
            + "\nl4_packets_dropped_total{reason=\"blocked\"} "@ + decimal(m.dropped_blocked as nat)
            + "\nl4_packets_dropped_total{reason=\"rate\"} "@ + decimal(m.dropped_rate as nat)
            + "\nl4_packets_dropped_total{reason=\"no_backend\"} "@ + decimal(
            m.dropped_nobackend as nat,
        )
            + "\n# HELP l4_backends Backend counts.\n# TYPE l4_backends gauge\nl4_backends{state=\"total\"} "@
            + decimal(m.backends_total as nat) + "\nl4_backends{state=\"healthy\"} "@ + decimal(
            m.backends_healthy as nat,
        ) + "\n"@,
{
}

/// A number in front of a line feed can be read off a text.
proof fn lemma_number_reads_off(a: nat, x: Seq<char>, b: nat, y: Seq<char>)
    requires
        x.len() > 0,
        y.len() > 0,
        x[0] == '\n',
        y[0] == '\n',
        decimal(a) + x == decimal(b) + y,
    ensures
        a == b,
        x == y,
{
    let da = decimal(a);
    let db = decimal(b);
    let s = da + x;
    lemma_decimal(a);
    lemma_decimal(b);
    if da.len() < db.len() {
        assert(s[da.len() as int] == x[0]);
        assert((db + y)[da.len() as int] == db[da.len() as int]);
    }
    if db.len() < da.len() {
        assert((db + y)[db.len() as int] == y[0]);
        assert(s[db.len() as int] == da[db.len() as int]);
    }
    assert(da =~= db) by {
        assert(s.take(da.len() as int) =~= da);
        assert((db + y).take(db.len() as int) =~= db);
    }
    assert(x =~= y) by {
        assert(s.skip(da.len() as int) =~= x);
        assert((db + y).skip(db.len() as int) =~= y);
    }
    decimal_reads_back(a);
    decimal_reads_back(b);
}

/// Equal texts behind a common start are equal.
proof fn lemma_behind_a_prefix(p: Seq<char>, x: Seq<char>, y: Seq<char>)
    requires
        p + x == p + y,
    ensures
        x == y,
{
    assert((p + x).skip(p.len() as int) =~= x);
    assert((p + y).skip(p.len() as int) =~= y);
}

/// The exposition from the `k`-th counter on.
spec fn exposed_from(m: MetricsState, k: int) -> Seq<char>
    decreases 7 - k,
{
    if k >= 7 {
        "\n"@
    } else {
        exposed_name(k) + (decimal(exposed_value(m, k)) + exposed_from(m, k + 1))
    }
}

spec fn exposed_name(k: int) -> Seq<char> {
    if k == 0 {
        "# HELP l4_packets_routed_total Packets DNAT'd to a backend.\n# TYPE l4_packets_routed_total counter\nl4_packets_routed_total "@
    } else if k == 1 {
        "\n# HELP l4_packets_dropped_total Packets dropped, by reason.\n# TYPE l4_packets_dropped_total counter\nl4_packets_dropped_total{reason=\"validation\"} "@
    } else if k == 2 {
        "\nl4_packets_dropped_total{reason=\"blocked\"} "@
    } else if k == 3 {
        "\nl4_packets_dropped_total{reason=\"rate\"} "@
    } else if k == 4 {
        "\nl4_packets_dropped_total{reason=\"no_backend\"} "@
    } else if k == 5 {
        "\n# HELP l4_backends Backend counts.\n# TYPE l4_backends gauge\nl4_backends{state=\"total\"} "@
    } else {
        "\nl4_backends{state=\"healthy\"} "@
    }
}

spec fn exposed_value(m: MetricsState, k: int) -> nat {
    (if k == 0 {
        m.routed
    } else if k == 1 {
        m.dropped_validation
    } else if k == 2 {
        m.dropped_blocked
    } else if k == 3 {
        m.dropped_rate
    } else if k == 4 {
        m.dropped_nobackend
    } else if k == 5 {
        m.backends_total
    } else {
        m.backends_healthy
    }) as nat
}

proof fn lemma_exposed(m: MetricsState)
    ensures
        exposition(m) == exposed_from(m, 0),
{
    let x1 = exposed_name(0) + decimal(exposed_value(m, 0));
    let x2 = x1 + exposed_name(1) + decimal(exposed_value(m, 1));
    let x3 = x2 + exposed_name(2) + decimal(exposed_value(m, 2));
    let x4 = x3 + exposed_name(3) + decimal(exposed_value(m, 3));
    let x5 = x4 + exposed_name(4) + decimal(exposed_value(m, 4));
    let x6 = x5 + exposed_name(5) + decimal(exposed_value(m, 5));
    let x7 = x6 + exposed_name(6) + decimal(exposed_value(m, 6));
    assert(exposition(m) == x7 + "\n"@);
    assert(exposed_from(m, 7) == "\n"@);
    lemma_exposed_next(x6, m, 6);
    lemma_exposed_next(x5, m, 5);
    lemma_exposed_next(x4, m, 4);
    lemma_exposed_next(x3, m, 3);
    lemma_exposed_next(x2, m, 2);
    lemma_exposed_next(x1, m, 1);
    let none = Seq::<char>::empty();
    assert(none + exposed_name(0) =~= exposed_name(0));
    lemma_exposed_next(none, m, 0);
    assert(none + exposed_from(m, 0) =~= exposed_from(m, 0));
}

proof fn lemma_exposed_next(x: Seq<char>, m: MetricsState, k: int)
    requires
        0 <= k < 7,
    ensures
        x + exposed_name(k) + decimal(exposed_value(m, k)) + exposed_from(m, k + 1) == x
            + exposed_from(m, k),
{
    let n = exposed_name(k);
    let d = decimal(exposed_value(m, k));
    let r = exposed_from(m, k + 1);
    assert(exposed_from(m, k) == n + (d + r));
    assert(x + n + d + r =~= x + (n + (d + r)));
}

proof fn lemma_exposed_starts(m: MetricsState, k: int)
    requires
        1 <= k <= 7,
    ensures
        exposed_from(m, k).len() > 0,
        exposed_from(m, k)[0] == '\n',
{
    reveal_strlit("\n");
    reveal_strlit(
        "\n# HELP l4_packets_dropped_total Packets dropped, by reason.\n# TYPE l4_packets_dropped_total counter\nl4_packets_dropped_total{reason=\"validation\"} ",
    );
    reveal_strlit("\nl4_packets_dropped_total{reason=\"blocked\"} ");
    reveal_strlit("\nl4_packets_dropped_total{reason=\"rate\"} ");
    reveal_strlit("\nl4_packets_dropped_total{reason=\"no_backend\"} ");
    reveal_strlit(
        "\n# HELP l4_backends Backend counts.\n# TYPE l4_backends gauge\nl4_backends{state=\"total\"} ",
    );
    reveal_strlit("\nl4_backends{state=\"healthy\"} ");
    if k < 7 {
        assert(exposed_from(m, k) == exposed_name(k) + (decimal(exposed_value(m, k)) + exposed_from(
            m,
            k + 1,
        )));
        assert(exposed_name(k).len() > 0);
        assert(exposed_name(k)[0] == '\n');
    }
}

proof fn lemma_exposed_values(m: MetricsState, n: MetricsState, k: int)
    requires
        0 <= k <= 7,
        exposed_from(m, k) == exposed_from(n, k),
    ensures
        forall|j: int| k <= j < 7 ==> #[trigger] exposed_value(m, j) == exposed_value(n, j),
    decreases 7 - k,
{
    if k < 7 {
        let x = decimal(exposed_value(m, k)) + exposed_from(m, k + 1);
        let y = decimal(exposed_value(n, k)) + exposed_from(n, k + 1);
        assert(exposed_from(m, k) == exposed_name(k) + x);
        assert(exposed_from(n, k) == exposed_name(k) + y);
        lemma_behind_a_prefix(exposed_name(k), x, y);
        lemma_exposed_starts(m, k + 1);
        lemma_exposed_starts(n, k + 1);
        lemma_number_reads_off(
            exposed_value(m, k),
            exposed_from(m, k + 1),
            exposed_value(n, k),
            exposed_from(n, k + 1),
        );
        lemma_exposed_values(m, n, k + 1);
    }
}

/// Law: the exposition tells every counter. Two snapshots with the same text agree in all
/// of them.
pub proof fn the_exposition_tells_every_counter(m: MetricsState, n: MetricsState)
    requires
        exposition(m) == exposition(n),
    ensures
        m.routed == n.routed,
        m.dropped_validation == n.dropped_validation,
        m.dropped_blocked == n.dropped_blocked,
        m.dropped_rate == n.dropped_rate,
        m.dropped_nobackend == n.dropped_nobackend,
        m.backends_total == n.backends_total,
        m.backends_healthy == n.backends_healthy,
{
    lemma_exposed(m);
    lemma_exposed(n);
    lemma_exposed_values(m, n, 0);
    assert(exposed_value(m, 0) == exposed_value(n, 0));
    assert(exposed_value(m, 1) == exposed_value(n, 1));
    assert(exposed_value(m, 2) == exposed_value(n, 2));
    assert(exposed_value(m, 3) == exposed_value(n, 3));
    assert(exposed_value(m, 4) == exposed_value(n, 4));
    assert(exposed_value(m, 5) == exposed_value(n, 5));
    assert(exposed_value(m, 6) == exposed_value(n, 6));
}

/// Law: the second word of a request is what it asks for. The metrics and the readiness
/// are given to those who ask for them, by their exact paths; anything else, and a
/// request without a second word, is not found.
pub proof fn requests_are_answered_by_path(request: Seq<char>, m: MetricsState)
    ensures
        ({
            let words = fields(request);
            let answer = page(request_path(request), m);
            let metrics = words.len() > 1 && words[1] == "/metrics"@;
            let health = words.len() > 1 && words[1] == "/healthz"@;
            &&& metrics ==> answer == ("200 OK"@, "text/plain; version=0.0.4"@, exposition(m))
            &&& health && m.ready ==> answer == ("200 OK"@, "text/plain"@, "ok\n"@)
            &&& health && !m.ready ==> answer == (
                "503 Service Unavailable"@,
                "text/plain"@,
                "no healthy backends\n"@,
            )
            &&& !metrics && !health ==> answer == (
                "404 Not Found"@,
                "text/plain"@,
                "not found\n"@,
            )
        }),
{
    reveal_strlit("/");
    reveal_strlit("/metrics");
    reveal_strlit("/healthz");
    assert("/"@.len() == 1 && "/metrics"@.len() == 8 && "/healthz"@.len() == 8);
    assert("/healthz"@[1] != "/metrics"@[1]);
}

/// Law: a response is a status line, the type and the length of the body in bytes, and the
/// body itself behind an empty line.
pub proof fn responses_carry_the_page(request: Seq<char>, m: MetricsState)
    ensures
        ({
            let (status, content_type, body) = page(request_path(request), m);
            let head = "HTTP/1.1 "@ + status + "\r\nContent-Type: "@ + content_type
                + "\r\nContent-Length: "@;
            encode_utf8(body).len() <= usize::MAX ==> response_to(request, m) == head + decimal(
                encode_utf8(body).len(),
            ) + "\r\nConnection: close\r\n\r\n"@ + body
        }),
{
}

/// Law: a reload hands its counters on as they are, and makes the endpoint ready exactly
/// if a backend is healthy.
pub proof fn reloads_refresh_the_snapshot(s: Stats, total: u64, healthy: u64)
    ensures
        ({
            let m = MetricsState::refreshed(s, total, healthy);
            &&& m.routed == s.routed
            &&& m.dropped_validation == s.dropped_validation
            &&& m.dropped_blocked == s.dropped_blocked
            &&& m.dropped_rate == s.dropped_rate
            &&& m.dropped_nobackend == s.dropped_nobackend
            &&& m.backends_total == total
            &&& m.backends_healthy == healthy
            &&& m.ready <==> healthy > 0
        }),
{
}

} // verus!
