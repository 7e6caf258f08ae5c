use yfass::deploy::{Deployments, Handle};
use yfass::func::Key;
use yfass::proxy::{header_contains, header_eq, maybe_ws_request, strip_suffix_str, HostRouter, ProxyTable};

struct FakeHandle(u32, bool);

impl Handle for FakeHandle {
    fn is_running(&self) -> bool {
        self.1
    }
}

fn key<'a>(name: &'a str, version: &'a str) -> Key<'a> {
    Key { name, version }
}

#[test]
fn router_strips_host_with_and_without_port() {
    let r = HostRouter::new("example.test", 8080);
    assert_eq!(r.host_with_dot, ".example.test");
    assert_eq!(r.host_port_with_dot, ".example.test:8080");
    assert_eq!(r.route_prefix("v1.echo.example.test:8080").as_deref(), Some("v1.echo"));
    assert_eq!(r.route_prefix("v1.echo.example.test").as_deref(), Some("v1.echo"));
    assert_eq!(r.route_prefix("example.test:8080"), None);
}

#[test]
fn subdomain_miss_is_not_a_function_request() {
    let r = HostRouter::new("example.test", 8080);
    assert_eq!(r.route_prefix("foo.other.test"), None);
    assert_eq!(r.route_prefix("foo.other.test:8080"), None);
}

#[test]
fn strip_suffix_cases() {
    assert_eq!(strip_suffix_str("abc", "bc").as_deref(), Some("a"));
    assert_eq!(strip_suffix_str("abc", "abc").as_deref(), Some(""));
    assert_eq!(strip_suffix_str("abc", "x"), None);
    assert_eq!(strip_suffix_str("bc", "abc"), None);
}

#[test]
fn websocket_detection() {
    assert!(maybe_ws_request(true, false, Some("keep-alive, Upgrade"), Some("WebSocket")));
    assert!(!maybe_ws_request(true, false, Some("keep-alive"), Some("websocket")));
    assert!(!maybe_ws_request(true, false, Some("upgrade"), Some("websockets")));
    assert!(!maybe_ws_request(true, false, None, Some("websocket")));
    assert!(maybe_ws_request(false, true, None, None));
    assert!(!maybe_ws_request(false, false, Some("upgrade"), Some("websocket")));
    assert!(header_contains(Some("UPGRADE"), "upgrade"));
    assert!(!header_contains(Some("upgr"), "upgrade"));
    assert!(header_eq(Some("WEBSOCKET"), "websocket"));
    assert!(!header_eq(None, "websocket"));
}

#[test]
fn proxy_table_insert_replace_remove() {
    let mut t = ProxyTable::new();
    t.insert("v1.echo".to_owned(), "127.0.0.1:1".to_owned());
    t.insert("v1.echo".to_owned(), "127.0.0.1:2".to_owned());
    assert_eq!(t.get("v1.echo").as_deref(), Some("127.0.0.1:2"));
    t.remove("v1.echo");
    assert_eq!(t.get("v1.echo"), None);
}

#[test]
fn start_routes_and_stop_unroutes() {
    let mut d: Deployments<FakeHandle> = Deployments::new();
    assert!(d.start(key("echo", "v1"), "127.0.0.1:19999".to_owned(), FakeHandle(1, true)).is_ok());
    assert!(d.is_running(key("echo", "v1")));
    assert_eq!(d.route("v1.echo").as_deref(), Some("127.0.0.1:19999"));
    assert!(d.start(key("other", "v2"), "127.0.0.1:2".to_owned(), FakeHandle(2, true)).is_ok());
    assert!(d.stop(key("other", "v2")).is_some());
    // the first function is still running and routed
    assert!(d.is_running(key("echo", "v1")));
    assert!(d.route("v1.echo").is_some());
    let h = d.stop(key("echo", "v1")).unwrap();
    assert_eq!(h.0, 1);
    assert!(!d.is_running(key("echo", "v1")));
    assert_eq!(d.route("v1.echo"), None);
    assert!(d.stop(key("echo", "v1")).is_none());
}

#[test]
fn second_start_is_refused() {
    let mut d: Deployments<FakeHandle> = Deployments::new();
    assert!(d.start(key("fn", "v1"), "a:1".to_owned(), FakeHandle(1, true)).is_ok());
    let back = d.start(key("fn", "v1"), "a:2".to_owned(), FakeHandle(2, true));
    match back {
        Err(h) => assert_eq!(h.0, 2),
        Ok(()) => panic!("second start accepted"),
    }
    assert_eq!(d.route("v1.fn").as_deref(), Some("a:1"));
}

#[test]
fn dead_handle_is_not_running() {
    let mut d: Deployments<FakeHandle> = Deployments::new();
    d.start(key("fn", "v1"), "a:1".to_owned(), FakeHandle(1, false)).ok().unwrap();
    assert!(!d.is_running(key("fn", "v1")));
}
