//! The health and metrics HTTP endpoint: routing a request and writing the
//! response.
use vstd::prelude::*;
use vstd::string::{is_ascii, StringSliceAdditionalSpecFns};
use crate::decimal::{decimal_digits, decimal_value, lemma_decimal_digits_spell, push_decimal};

verus! {

/// The resource a request asks for.
#[derive(Debug, Clone, Copy, PartialEq, Eq, Structural)]
pub enum Endpoint {
    /// `GET /health`: whether the process is alive.
    Health,
    /// `GET /ready`: whether upstream is connected and a consumer is.
    Ready,
    /// `GET /metrics`: the Prometheus metrics.
    Metrics,
    /// Anything else.
    NotFound,
}

pub open spec fn starts_with(s: Seq<u8>, prefix: Seq<u8>) -> bool {
    prefix.len() <= s.len() && s.take(prefix.len() as int) == prefix
}

/// The endpoint a request is for, by how its request line begins.
pub open spec fn spec_route(request: Seq<u8>) -> Endpoint {
    if starts_with(request, "GET /health".spec_bytes()) {
        Endpoint::Health
    } else if starts_with(request, "GET /ready".spec_bytes()) {
        Endpoint::Ready
    } else if starts_with(request, "GET /metrics".spec_bytes()) {
        Endpoint::Metrics
    } else {
        Endpoint::NotFound
    }
}

/// An HTTP/1.1 response with the given status, content type and body.
pub open spec fn http_response(status: Seq<u8>, content_type: Seq<u8>, body: Seq<u8>) -> Seq<u8> {
    "HTTP/1.1 ".spec_bytes() + status + "\r\nContent-Type: ".spec_bytes() + content_type
        + "\r\nContent-Length: ".spec_bytes() + decimal_digits(body.len()) + "\r\n\r\n".spec_bytes()
        + body
}

/// The broker is ready when upstream is connected and at least one consumer
/// is.
pub open spec fn is_ready(upstream_connected: bool, downstream_clients: usize) -> bool {
    upstream_connected && downstream_clients > 0
}

/// The response to a request for `endpoint`.
pub open spec fn spec_response(
    endpoint: Endpoint,
    upstream_connected: bool,
    downstream_clients: usize,
    metrics_text: Seq<u8>,
) -> Seq<u8> {
    match endpoint {
        Endpoint::Health => http_response(
            "200 OK".spec_bytes(),
            "text/plain".spec_bytes(),
            "ok\n".spec_bytes(),
        ),
        Endpoint::Ready => if is_ready(upstream_connected, downstream_clients) {
            http_response("200 OK".spec_bytes(), "text/plain".spec_bytes(), "ready\n".spec_bytes())
        } else {
            http_response(
                "503 Service Unavailable".spec_bytes(),
                "text/plain".spec_bytes(),
                "not ready\n".spec_bytes(),
            )
        },
        Endpoint::Metrics => http_response(
            "200 OK".spec_bytes(),
            "text/plain; charset=utf-8".spec_bytes(),
            metrics_text,
        ),
        Endpoint::NotFound => http_response(
            "404 Not Found".spec_bytes(),
            "text/plain".spec_bytes(),
            "not found\n".spec_bytes(),
        ),
    }
}

/// Law (readiness): with upstream connected and any number of consumers
/// from one up, `/ready` answers 200 `ready`; with upstream disconnected or
/// no consumer, it answers 503 `not ready`.
pub proof fn lemma_ready_response(upstream_connected: bool, downstream_clients: usize, metrics_text: Seq<u8>)
    ensures
        upstream_connected && downstream_clients >= 1 ==> spec_response(
            Endpoint::Ready,
            upstream_connected,
            downstream_clients,
            metrics_text,
        ) == http_response("200 OK".spec_bytes(), "text/plain".spec_bytes(), "ready\n".spec_bytes()),
        !upstream_connected || downstream_clients == 0 ==> spec_response(
            Endpoint::Ready,
            upstream_connected,
            downstream_clients,
            metrics_text,
        ) == http_response(
            "503 Service Unavailable".spec_bytes(),
            "text/plain".spec_bytes(),
            "not ready\n".spec_bytes(),
        ),
{
}

/// Law (response framing): a response ends with its body, and its
/// `Content-Length` value, the decimal digits just before the blank line,
/// spells the body's length in bytes.
pub proof fn lemma_response_carries_body(status: Seq<u8>, content_type: Seq<u8>, body: Seq<u8>)
    ensures
        ({
            let r = http_response(status, content_type, body);
            let blank = "\r\n\r\n".spec_bytes();
            let head_len = r.len() - body.len() - blank.len();
            let digits = decimal_digits(body.len());
            &&& r.skip(r.len() - body.len()) == body
            &&& r.subrange(head_len - digits.len(), head_len) == digits
            &&& decimal_value(digits) == body.len()
        }),
{
    let r = http_response(status, content_type, body);
    let blank = "\r\n\r\n".spec_bytes();
    let digits = decimal_digits(body.len());
    let prefix = "HTTP/1.1 ".spec_bytes() + status + "\r\nContent-Type: ".spec_bytes() + content_type
        + "\r\nContent-Length: ".spec_bytes();
    assert(r == prefix + digits + blank + body);
    assert(r.skip(r.len() - body.len()) =~= body);
    assert(r.subrange(prefix.len() as int, (prefix.len() + digits.len()) as int) =~= digits);
    lemma_decimal_digits_spell(body.len());
}

/// Law (other endpoints): `/metrics` answers 200 with the rendered metrics
/// as its body, and any other request 404 `not found`, whatever the state.
pub proof fn lemma_metrics_and_not_found(up: bool, clients: usize, metrics_text: Seq<u8>)
    ensures
        spec_response(Endpoint::Metrics, up, clients, metrics_text) == http_response(
            "200 OK".spec_bytes(),
            "text/plain; charset=utf-8".spec_bytes(),
            metrics_text,
        ),
        spec_response(Endpoint::NotFound, up, clients, metrics_text) == http_response(
            "404 Not Found".spec_bytes(),
            "text/plain".spec_bytes(),
            "not found\n".spec_bytes(),
        ),
{
}

/// Law (health): `/health` answers 200 `ok` whatever the state of the
/// broker.
pub proof fn lemma_health_response(upstream_connected: bool, downstream_clients: usize, metrics_text: Seq<u8>)
    ensures
        spec_response(Endpoint::Health, upstream_connected, downstream_clients, metrics_text)
            == http_response("200 OK".spec_bytes(), "text/plain".spec_bytes(), "ok\n".spec_bytes()),
{
}

/// Law (routing): a request whose first line begins with `GET /health`,
/// `GET /ready` or `GET /metrics` is for that endpoint, whatever follows.
pub proof fn lemma_route_paths(rest: Seq<u8>)
    ensures
        spec_route("GET /health".spec_bytes() + rest) == Endpoint::Health,
        spec_route("GET /ready".spec_bytes() + rest) == Endpoint::Ready,
        spec_route("GET /metrics".spec_bytes() + rest) == Endpoint::Metrics,
{
    reveal_strlit("GET /health");
    reveal_strlit("GET /ready");
    reveal_strlit("GET /metrics");
    let h = "GET /health".spec_bytes();
    let r = "GET /ready".spec_bytes();
    let m = "GET /metrics".spec_bytes();
    assert(is_ascii("GET /health"));
    assert(is_ascii("GET /ready"));
    assert(is_ascii("GET /metrics"));
    assert((h + rest).take(h.len() as int) =~= h);
    assert((r + rest).take(r.len() as int) =~= r);
    assert((m + rest).take(m.len() as int) =~= m);
    assert((r + rest)[5] == r[5]);
    assert((m + rest)[5] == m[5]);
    assert(h[5] != r[5] && h[5] != m[5] && r[5] != m[5]);
    if h.len() <= (r + rest).len() {
        assert((r + rest).take(h.len() as int)[5] == r[5]);
    }
    if h.len() <= (m + rest).len() {
        assert((m + rest).take(h.len() as int)[5] == m[5]);
    }
    assert((m + rest).take(r.len() as int)[5] == m[5]);
}

fn bytes_start_with(s: &[u8], prefix: &[u8]) -> (r: bool)
    ensures
        r == starts_with(s@, prefix@),
{
    if prefix.len() > s.len() {
        return false;
    }
    let mut i: usize = 0;
    while i < prefix.len()
        invariant
            prefix@.len() <= s@.len(),
            i <= prefix@.len(),
            forall|j: int| 0 <= j < i ==> s@[j] == prefix@[j],
        decreases prefix@.len() - i,
    {
        if s[i] != prefix[i] {
            assert(s@.take(prefix@.len() as int)[i as int] != prefix@[i as int]);
            return false;
        }
        i = i + 1;
    }
    assert(s@.take(prefix@.len() as int) =~= prefix@);
    true
}

/// The endpoint a request is for; see [`spec_route`].
pub fn route(request: &[u8]) -> (r: Endpoint)
    ensures
        r == spec_route(request@),
{
    if bytes_start_with(request, "GET /health".as_bytes()) {
        Endpoint::Health
    } else if bytes_start_with(request, "GET /ready".as_bytes()) {
        Endpoint::Ready
    } else if bytes_start_with(request, "GET /metrics".as_bytes()) {
        Endpoint::Metrics
    } else {
        Endpoint::NotFound
    }
}

fn push_bytes(out: &mut Vec<u8>, s: &[u8])
    ensures
        final(out)@ == old(out)@ + s@,
{
    let mut i: usize = 0;
    while i < s.len()
        invariant
            i <= s@.len(),
            out@ == old(out)@ + s@.take(i as int),
        decreases s@.len() - i,
    {
        out.push(s[i]);
        assert(s@.take(i + 1) =~= s@.take(i as int).push(s@[i as int]));
        i = i + 1;
    }
    assert(s@.take(s@.len() as int) =~= s@);
}

/// Writes an HTTP/1.1 response with the given status, content type and body.
fn write_response(status: &str, content_type: &str, body: &[u8]) -> (r: Vec<u8>)
    ensures
        r@ == http_response(status.spec_bytes(), content_type.spec_bytes(), body@),
{
    let mut out: Vec<u8> = Vec::new();
    push_bytes(&mut out, "HTTP/1.1 ".as_bytes());
    push_bytes(&mut out, status.as_bytes());
    push_bytes(&mut out, "\r\nContent-Type: ".as_bytes());
    push_bytes(&mut out, content_type.as_bytes());
    push_bytes(&mut out, "\r\nContent-Length: ".as_bytes());
    push_decimal(&mut out, body.len());
    push_bytes(&mut out, "\r\n\r\n".as_bytes());
    push_bytes(&mut out, body);
    assert(out@ =~= http_response(status.spec_bytes(), content_type.spec_bytes(), body@));
    out
}

/// The response to a request for `endpoint`, given whether upstream is
/// connected, how many consumers are, and the rendered metrics (used only
/// for [`Endpoint::Metrics`]).
pub fn response(
    endpoint: Endpoint,
    upstream_connected: bool,
    downstream_clients: usize,
    metrics_text: &str,
) -> (r: Vec<u8>)
    ensures
        r@ == spec_response(
            endpoint,
            upstream_connected,
            downstream_clients,
            metrics_text.spec_bytes(),
        ),
{
    match endpoint {
        Endpoint::Health => write_response("200 OK", "text/plain", "ok\n".as_bytes()),
        Endpoint::Ready => if upstream_connected && downstream_clients > 0 {
            write_response("200 OK", "text/plain", "ready\n".as_bytes())
        } else {
            write_response("503 Service Unavailable", "text/plain", "not ready\n".as_bytes())
        },
        Endpoint::Metrics => write_response(
            "200 OK",
            "text/plain; charset=utf-8",
            metrics_text.as_bytes(),
        ),
        Endpoint::NotFound => write_response("404 Not Found", "text/plain", "not found\n".as_bytes()),
    }
}

} // verus!
