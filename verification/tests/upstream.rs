use echofront::http::Request;
use echofront::upstream::{head_probe, MockUpstream, Step, Upstream, UpstreamError, UpstreamReply};

#[test]
fn scripted_then_default() {
    let mut m = MockUpstream::new("a");
    m.push(Step::ok(201));
    m.push(Step::fail(UpstreamError::Timeout));
    let r1 = m.send(&Request::get("/"));
    assert_eq!(r1.outcome.unwrap().status, 201);
    let r2 = m.send(&Request::get("/"));
    assert_eq!(r2.outcome.unwrap_err(), UpstreamError::Timeout);
    let r3 = m.send(&Request::get("/"));
    assert_eq!(r3.outcome.unwrap().status, 200);
    assert_eq!(m.calls(), 3);
}

#[test]
fn five_hundred_maps_to_error() {
    let mut m = MockUpstream::new("a");
    m.push(Step::ok(503));
    let r = m.send(&Request::get("/"));
    assert_eq!(r.outcome.unwrap_err(), UpstreamError::ServerError(503));
}

#[test]
fn probe_script_and_default() {
    let mut m = MockUpstream::new("a").with_probe_default(true);
    m.push_probes(vec![false, false]);
    assert!(!m.probe());
    assert!(!m.probe());
    assert!(m.probe());
    assert_eq!(m.probe_calls(), 3);
}

#[test]
fn always_failing_helper() {
    let mut m = MockUpstream::always_failing("bad", UpstreamError::Connection);
    assert!(!m.probe());
    assert_eq!(
        m.send(&Request::get("/")).outcome.unwrap_err(),
        UpstreamError::Connection
    );
}

#[test]
fn error_messages() {
    assert_eq!(UpstreamError::Timeout.message(), "timeout");
    assert_eq!(UpstreamError::Connection.message(), "connection refused");
    assert_eq!(UpstreamError::ServerError(503).message(), "server error 503");
}

#[test]
fn replies_carry_name_and_latency() {
    let mut m = MockUpstream::healthy("node-1");
    m.push(Step::ok_slow(204, 90));
    let reply = m.send(&Request::get("/"));
    assert!(reply.is_ok());
    assert_eq!(reply.latency_ms, 90);
    let copy: UpstreamReply = reply.clone();
    let resp = copy.outcome.unwrap();
    assert_eq!(resp.status, 204);
    assert_eq!(resp.body, b"node-1");
    assert_eq!(m.send(&Request::get("/")).latency_ms, 5);
    assert_eq!(m.name(), "node-1");
}

#[test]
fn many_steps_then_default() {
    let mut m = MockUpstream::new("a").with_default(Step::fail(UpstreamError::Timeout));
    m.push_many(vec![Step::ok(200), Step::ok(499)]);
    assert!(m.send(&Request::get("/")).is_ok());
    assert_eq!(m.send(&Request::get("/")).outcome.unwrap().status, 499);
    for _ in 0..3 {
        assert!(!m.send(&Request::get("/")).is_ok());
    }
    assert_eq!(m.calls(), 5);
}

#[test]
fn head_probe_judges_by_the_reply() {
    let mut m = MockUpstream::new("a");
    m.push_many(vec![Step::ok(404), Step::ok(500), Step::fail(UpstreamError::Connection)]);
    assert!(head_probe(&mut m), "any answer below 500 is a sign of life");
    assert!(!head_probe(&mut m));
    assert!(!head_probe(&mut m));
    assert!(head_probe(&mut m));
    assert_eq!(m.calls(), 4);
    assert_eq!(m.probe_calls(), 0);
}

#[test]
fn single_probe_results_queue_up() {
    let mut m = MockUpstream::new("a").with_probe_default(false);
    m.push_probe(true);
    assert!(m.probe());
    assert!(!m.probe());
}

#[test]
fn boxed_upstream_delegates() {
    let mut b: Box<MockUpstream> = Box::new(MockUpstream::healthy("x"));
    assert!(Upstream::probe(&mut b));
    assert!(Upstream::send(&mut b, &Request::get("/")).is_ok());
    assert_eq!(b.calls(), 1);
}
