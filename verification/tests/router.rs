use echofront::http::Request;
use echofront::router::{Route, Router};

fn req(host: &str, path: &str) -> Request {
    Request::get(path).with_header("Host", host)
}

#[test]
fn longest_prefix_wins() {
    let mut r = Router::new();
    r.add(Route::new(None, "/", "root"));
    r.add(Route::new(None, "/api", "api"));
    r.add(Route::new(None, "/api/v2", "apiv2"));
    assert_eq!(r.route(&req("h", "/")), Some("root"));
    assert_eq!(r.route(&req("h", "/api/users")), Some("api"));
    assert_eq!(r.route(&req("h", "/api/v2/things")), Some("apiv2"));
}

#[test]
fn host_scoping() {
    let mut r = Router::new();
    r.add(Route::new(Some("a.example.com"), "/", "svc_a"));
    r.add(Route::new(Some("b.example.com"), "/", "svc_b"));
    assert_eq!(r.route(&req("a.example.com", "/x")), Some("svc_a"));
    assert_eq!(r.route(&req("b.example.com", "/x")), Some("svc_b"));
    assert_eq!(r.route(&req("c.example.com", "/x")), None);
}

#[test]
fn prefix_boundary() {
    let mut r = Router::new();
    r.add(Route::new(None, "/api", "api"));
    assert_eq!(r.route(&req("h", "/apixyz")), None);
    assert_eq!(r.route(&req("h", "/api")), Some("api"));
    assert_eq!(r.route(&req("h", "/api?q=1")), Some("api"));
}

#[test]
fn no_match() {
    let mut r = Router::new();
    r.add(Route::new(None, "/only", "svc"));
    assert_eq!(r.route(&req("h", "/other")), None);
}

#[test]
fn host_specific_route_breaks_ties() {
    let mut r = Router::new();
    r.add(Route::new(None, "/x", "any"));
    r.add(Route::new(Some("a"), "/x", "mine"));
    assert_eq!(r.route(&req("A", "/x/y")), Some("mine"));
    assert_eq!(r.route(&req("b", "/x/y")), Some("any"));
    // The other way round the host still wins.
    let mut s = Router::default();
    s.add(Route::new(Some("a"), "/x", "mine"));
    s.add(Route::new(None, "/x", "any"));
    assert_eq!(s.route(&req("a", "/x")), Some("mine"));
    assert_eq!(s.routes().len(), 2);
}

#[test]
fn longer_prefix_beats_host() {
    let mut r = Router::new();
    r.add(Route::new(Some("a"), "/", "host"));
    r.add(Route::new(None, "/deep", "deep"));
    assert_eq!(r.route(&req("a", "/deep/er")), Some("deep"));
}

#[test]
fn later_route_wins_among_equals() {
    let mut r = Router::new();
    r.add(Route::new(None, "/x", "first"));
    r.add(Route::new(None, "/x", "second"));
    assert_eq!(r.route(&req("h", "/x")), Some("second"));
}

#[test]
fn host_route_needs_a_host() {
    let mut r = Router::new();
    r.add(Route::new(Some("a"), "/", "svc"));
    assert_eq!(r.route(&Request::get("/")), None);
}
