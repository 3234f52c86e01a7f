use minipx::config::Config;
use minipx::config::ProxyRoute;
use minipx::proxy::extract_host;
use minipx::proxy::is_websocket;
use minipx::proxy::ProxyDecision;

#[test]
fn test_extract_host_from_uri_authority() {
    let host = extract_host(Some("example.com"), None, Some("example.com"));
    assert_eq!(host, Some("example.com".to_string()));
}

#[test]
fn test_extract_host_from_header() {
    let host = extract_host(None, Some("api.example.com"), None);
    assert_eq!(host, Some("api.example.com".to_string()));
}

#[test]
fn test_extract_host_from_header_with_port() {
    let host = extract_host(None, Some("api.example.com:8080"), None);
    assert_eq!(host, Some("api.example.com".to_string()));
}

#[test]
fn test_extract_host_priority_uri_over_header() {
    let host = extract_host(Some("uri.example.com"), Some("header.example.com"), Some("uri.example.com"));
    assert_eq!(host, Some("uri.example.com".to_string()));
}

#[test]
fn test_extract_host_none() {
    let host = extract_host(None, None, None);
    assert_eq!(host, None);
}

#[test]
fn test_is_websocket_detection() {
    assert!(is_websocket(Some("websocket"), Some("Upgrade")));
    assert!(is_websocket(Some("WebSocket"), Some("keep-alive, Upgrade")));
    assert!(!is_websocket(Some("websocket"), None));
    assert!(!is_websocket(None, Some("Upgrade")));
    assert!(!is_websocket(Some("h2c"), Some("Upgrade")));
    assert!(!is_websocket(Some("websocket"), Some("keep-alive")));
}

#[test]
fn test_route_request_unknown_host() {
    let config = Config::default();
    let d = config.route_request(true, "nowhere.example.com", "/", None, false);
    assert!(matches!(d, ProxyDecision::NotFound));
}

#[test]
fn test_route_request_plain_forward() {
    // Route example.com -> localhost:8080, no redirect: the request is
    // forwarded to the backend with its path kept.
    let mut config = Config::default();
    config
        .add_route(
            "example.com".to_string(),
            ProxyRoute::new("localhost".to_string(), "".to_string(), 8080, false, None, false),
        )
        .unwrap();
    let d = config.route_request(true, "example.com", "/", None, false);
    match d {
        ProxyDecision::Forward { target, path_and_query } => {
            assert_eq!(target, "http://localhost:8080");
            assert_eq!(path_and_query, "/");
        }
        _ => panic!("expected a forward"),
    }
}

#[test]
fn test_route_request_redirects_when_tls_servable() {
    let mut config = Config::default();
    config.set_email("admin@example.com".to_string());
    config
        .add_route(
            "example.com".to_string(),
            ProxyRoute::new("localhost".to_string(), "".to_string(), 8080, true, None, true),
        )
        .unwrap();
    let d = config.route_request(true, "example.com", "/", None, false);
    match d {
        ProxyDecision::Redirect { location } => {
            assert_eq!(location, "https://example.com/");
        }
        _ => panic!("expected a redirect"),
    }
    // Query strings survive the redirect.
    let d2 = config.route_request(true, "example.com", "/a", Some("k=v"), false);
    match d2 {
        ProxyDecision::Redirect { location } => {
            assert_eq!(location, "https://example.com/a?k=v");
        }
        _ => panic!("expected a redirect"),
    }
}

#[test]
fn test_route_request_degrades_when_tls_unavailable() {
    // redirect_to_https is set, yet the email is broken: serve over
    // HTTP instead of redirecting into a dead end.
    let mut config = Config::default();
    config
        .add_route(
            "example.com".to_string(),
            ProxyRoute::new("localhost".to_string(), "".to_string(), 8080, true, None, true),
        )
        .unwrap();
    let d = config.route_request(true, "example.com", "/", None, false);
    assert!(matches!(d, ProxyDecision::Forward { .. }));
}

#[test]
fn test_route_request_no_redirect_over_https() {
    let mut config = Config::default();
    config.set_email("admin@example.com".to_string());
    config
        .add_route(
            "example.com".to_string(),
            ProxyRoute::new("localhost".to_string(), "".to_string(), 8080, true, None, true),
        )
        .unwrap();
    let d = config.route_request(false, "example.com", "/", None, false);
    assert!(matches!(d, ProxyDecision::Forward { .. }));
}

#[test]
fn test_route_request_subroute_strips_prefix() {
    // Route api.example.com -> localhost:3000 with subroute /v1 -> 3001:
    // /v1/users goes upstream to port 3001 as /users.
    let mut config = Config::default();
    config
        .add_route(
            "api.example.com".to_string(),
            ProxyRoute::new("localhost".to_string(), "".to_string(), 3000, false, None, false),
        )
        .unwrap();
    config.add_subroute("api.example.com", "/v1".to_string(), 3001).unwrap();
    let d = config.route_request(true, "api.example.com", "/v1/users", None, false);
    match d {
        ProxyDecision::Forward { target, path_and_query } => {
            assert_eq!(target, "http://localhost:3001");
            assert_eq!(path_and_query, "/users");
        }
        _ => panic!("expected a forward"),
    }
    // A path outside the subroute goes to the parent port.
    let d2 = config.route_request(true, "api.example.com", "/other", None, false);
    match d2 {
        ProxyDecision::Forward { target, path_and_query } => {
            assert_eq!(target, "http://localhost:3000");
            assert_eq!(path_and_query, "/other");
        }
        _ => panic!("expected a forward"),
    }
}

#[test]
fn test_route_request_websocket_keeps_path() {
    let mut config = Config::default();
    config
        .add_route(
            "api.example.com".to_string(),
            ProxyRoute::new("localhost".to_string(), "".to_string(), 3000, false, None, false),
        )
        .unwrap();
    config.add_subroute("api.example.com", "/ws".to_string(), 3002).unwrap();
    let d = config.route_request(true, "api.example.com", "/ws/live", None, true);
    match d {
        ProxyDecision::Websocket { host, port, subroute_path } => {
            assert_eq!(host, "localhost");
            assert_eq!(port, 3002);
            assert_eq!(subroute_path, "/ws");
        }
        _ => panic!("expected a websocket tunnel"),
    }
    let d2 = config.route_request(true, "api.example.com", "/plain", None, true);
    match d2 {
        ProxyDecision::Websocket { host, port, subroute_path } => {
            assert_eq!(host, "localhost");
            assert_eq!(port, 3000);
            assert_eq!(subroute_path, "");
        }
        _ => panic!("expected a websocket tunnel"),
    }
}

#[test]
fn test_route_request_first_subroute_wins() {
    // First-match in stored order, not longest prefix.
    let mut config = Config::default();
    config
        .add_route(
            "api.example.com".to_string(),
            ProxyRoute::new("localhost".to_string(), "".to_string(), 3000, false, None, false),
        )
        .unwrap();
    config.add_subroute("api.example.com", "/api".to_string(), 3001).unwrap();
    config.add_subroute("api.example.com", "/api/v1".to_string(), 3002).unwrap();
    let d = config.route_request(true, "api.example.com", "/api/v1/users", None, false);
    match d {
        ProxyDecision::Forward { target, path_and_query } => {
            assert_eq!(target, "http://localhost:3001");
            assert_eq!(path_and_query, "/v1/users");
        }
        _ => panic!("expected a forward"),
    }
}

#[test]
fn test_route_request_subroute_exact_path_defaults_to_root() {
    let mut config = Config::default();
    config
        .add_route(
            "api.example.com".to_string(),
            ProxyRoute::new("localhost".to_string(), "".to_string(), 3000, false, None, false),
        )
        .unwrap();
    config.add_subroute("api.example.com", "/v1".to_string(), 3001).unwrap();
    let d = config.route_request(true, "api.example.com", "/v1", None, false);
    match d {
        ProxyDecision::Forward { target, path_and_query } => {
            assert_eq!(target, "http://localhost:3001");
            assert_eq!(path_and_query, "/");
        }
        _ => panic!("expected a forward"),
    }
    assert_eq!(minipx::proxy::ws_upstream_path("/v1", "/v1"), "/");
    assert_eq!(minipx::proxy::ws_upstream_path("/v1", "/v1/live"), "/live");
}
