use minipx::config::Config;
use minipx::config::ProxyRoute;
use minipx::config::RoutePatch;

fn empty_patch() -> RoutePatch {
    RoutePatch {
        host: None,
        path: None,
        port: None,
        ssl_enable: None,
        redirect_to_https: None,
        listen_port: None,
    }
}

fn has_key(config: &Config, key: &str) -> bool {
    config.get_routes().iter().any(|kv| kv.0 == key)
}

#[test]
fn test_config_new() {
    let config = Config::new("./test_config.json");
    assert_eq!(config.get_email(), "");
    assert_eq!(config.get_cache_dir(), "./cache");
    assert!(config.get_routes().is_empty());
}

#[test]
fn test_config_set_email() {
    let mut config = Config::default();
    config.set_email("test@example.com".to_string());
    assert_eq!(config.get_email(), "test@example.com");
}

#[test]
fn test_lookup_host_exact_match() {
    let mut config = Config::default();
    config.routes.push((
        "api.example.com".to_string(),
        ProxyRoute::new("localhost".to_string(), "/api".to_string(), 8080, false, None, false),
    ));

    let route = config.lookup_host("api.example.com");
    assert!(route.is_some());
    assert_eq!(route.unwrap().get_host(), "localhost");
    assert_eq!(route.unwrap().get_port(), 8080);
}

#[test]
fn test_lookup_host_wildcard_match() {
    let mut config = Config::default();
    config.routes.push((
        "*.example.com".to_string(),
        ProxyRoute::new("localhost".to_string(), "/".to_string(), 8080, false, None, false),
    ));

    let route = config.lookup_host("api.example.com");
    assert!(route.is_some());
    assert_eq!(route.unwrap().get_host(), "localhost");

    let route2 = config.lookup_host("sub.example.com");
    assert!(route2.is_some());

    let route3 = config.lookup_host("example.com");
    assert!(route3.is_none());

    let route4 = config.lookup_host("example.org");
    assert!(route4.is_none());
}

#[test]
fn test_lookup_host_exact_over_wildcard() {
    let mut config = Config::default();
    config.routes.push((
        "*.example.com".to_string(),
        ProxyRoute::new("localhost".to_string(), "/wildcard".to_string(), 8080, false, None, false),
    ));
    config.routes.push((
        "api.example.com".to_string(),
        ProxyRoute::new("localhost".to_string(), "/exact".to_string(), 9090, false, None, false),
    ));

    let route = config.lookup_host("api.example.com");
    assert!(route.is_some());
    assert_eq!(route.unwrap().get_path(), "/exact");
    assert_eq!(route.unwrap().get_port(), 9090);
}

#[test]
fn test_add_route_success() {
    let mut config = Config::default();
    let route = ProxyRoute::new("localhost".to_string(), "/api".to_string(), 8080, true, None, false);
    let result = config.add_route("api.example.com".to_string(), route);
    assert!(result.is_ok());
    assert!(has_key(&config, "api.example.com"));
}

#[test]
fn test_add_route_duplicate() {
    let mut config = Config::default();
    let route1 = ProxyRoute::new("localhost".to_string(), "/api".to_string(), 8080, true, None, false);
    config.add_route("api.example.com".to_string(), route1).unwrap();

    let route2 = ProxyRoute::new("localhost".to_string(), "/api".to_string(), 9090, true, None, false);
    let result = config.add_route("api.example.com".to_string(), route2);
    assert!(result.is_err());
    assert!(result.unwrap_err().message().contains("already exists"));
}

#[test]
fn test_add_route_invalid_port() {
    let mut config = Config::default();
    let route = ProxyRoute::new("localhost".to_string(), "/api".to_string(), 80, true, None, false);
    let result = config.add_route("api.example.com".to_string(), route);
    assert!(result.is_err());
    assert!(result.unwrap_err().message().contains("reserved"));
}

#[test]
fn test_add_route_trailing_slash() {
    let mut config = Config::default();
    let route = ProxyRoute::new("localhost".to_string(), "/api/".to_string(), 8080, true, None, false);
    let result = config.add_route("api.example.com".to_string(), route);
    assert!(result.is_ok());
    let added_route = config.lookup_host("api.example.com").unwrap();
    assert_eq!(added_route.get_path(), "/api");
}

#[test]
fn test_remove_route() {
    let mut config = Config::default();
    let route = ProxyRoute::new("localhost".to_string(), "/api".to_string(), 8080, true, None, false);
    config.add_route("api.example.com".to_string(), route).unwrap();

    assert!(has_key(&config, "api.example.com"));
    let result = config.remove_route("api.example.com");
    assert!(result.is_ok());
    assert!(!has_key(&config, "api.example.com"));
}

#[test]
fn test_update_route_host() {
    let mut config = Config::default();
    let route = ProxyRoute::new("localhost".to_string(), "/api".to_string(), 8080, true, None, false);
    config.add_route("api.example.com".to_string(), route).unwrap();

    let patch = RoutePatch { host: Some("127.0.0.1".to_string()), ..empty_patch() };
    let result = config.update_route("api.example.com", patch);
    assert!(result.is_ok());
    assert_eq!(config.lookup_host("api.example.com").unwrap().get_host(), "127.0.0.1");
}

#[test]
fn test_update_route_port() {
    let mut config = Config::default();
    let route = ProxyRoute::new("localhost".to_string(), "/api".to_string(), 8080, true, None, false);
    config.add_route("api.example.com".to_string(), route).unwrap();

    let patch = RoutePatch { port: Some(9090), ..empty_patch() };
    let result = config.update_route("api.example.com", patch);
    assert!(result.is_ok());
    assert_eq!(config.lookup_host("api.example.com").unwrap().get_port(), 9090);
}

#[test]
fn test_update_route_invalid_port() {
    let mut config = Config::default();
    let route = ProxyRoute::new("localhost".to_string(), "/api".to_string(), 8080, true, None, false);
    config.add_route("api.example.com".to_string(), route).unwrap();

    let patch = RoutePatch { port: Some(443), ..empty_patch() };
    let result = config.update_route("api.example.com", patch);
    assert!(result.is_err());
}

#[test]
fn test_update_route_not_found() {
    let mut config = Config::default();
    let patch = RoutePatch { host: Some("127.0.0.1".to_string()), ..empty_patch() };
    let result = config.update_route("nonexistent.example.com", patch);
    assert!(result.is_err());
    assert!(result.unwrap_err().message().contains("not found"));
}

#[test]
fn test_add_subroute_success() {
    let mut config = Config::default();
    let route = ProxyRoute::new("localhost".to_string(), "/".to_string(), 8080, true, None, false);
    config.add_route("api.example.com".to_string(), route).unwrap();

    let result = config.add_subroute("api.example.com", "/metrics".to_string(), 9090);
    assert!(result.is_ok());

    let route = config.lookup_host("api.example.com").unwrap();
    assert_eq!(route.subroutes.len(), 1);
    assert_eq!(route.subroutes[0].path, "/metrics");
    assert_eq!(route.subroutes[0].port, 9090);
}

#[test]
fn test_add_subroute_prepend_slash() {
    let mut config = Config::default();
    let route = ProxyRoute::new("localhost".to_string(), "/".to_string(), 8080, true, None, false);
    config.add_route("api.example.com".to_string(), route).unwrap();

    let result = config.add_subroute("api.example.com", "metrics".to_string(), 9090);
    assert!(result.is_ok());

    let route = config.lookup_host("api.example.com").unwrap();
    assert_eq!(route.subroutes[0].path, "/metrics");
}

#[test]
fn test_add_subroute_duplicate_path() {
    let mut config = Config::default();
    let route = ProxyRoute::new("localhost".to_string(), "/".to_string(), 8080, true, None, false);
    config.add_route("api.example.com".to_string(), route).unwrap();

    config.add_subroute("api.example.com", "/metrics".to_string(), 9090).unwrap();
    let result = config.add_subroute("api.example.com", "/metrics".to_string(), 9091);
    assert!(result.is_err());
    assert!(result.unwrap_err().message().contains("already exists"));
}

#[test]
fn test_add_subroute_same_port_as_parent() {
    let mut config = Config::default();
    let route = ProxyRoute::new("localhost".to_string(), "/".to_string(), 8080, true, None, false);
    config.add_route("api.example.com".to_string(), route).unwrap();

    let result = config.add_subroute("api.example.com", "/metrics".to_string(), 8080);
    assert!(result.is_err());
    assert!(result.unwrap_err().message().contains("same as the parent"));
}

#[test]
fn test_add_subroute_invalid_port() {
    let mut config = Config::default();
    let route = ProxyRoute::new("localhost".to_string(), "/".to_string(), 8080, true, None, false);
    config.add_route("api.example.com".to_string(), route).unwrap();

    let result = config.add_subroute("api.example.com", "/metrics".to_string(), 443);
    assert!(result.is_err());
    assert!(result.unwrap_err().message().contains("reserved"));
}

#[test]
fn test_proxy_route_getters() {
    let route = ProxyRoute::new("localhost".to_string(), "/api/v1".to_string(), 8080, true, Some(8443), true);

    assert_eq!(route.get_host(), "localhost");
    assert_eq!(route.get_path(), "/api/v1");
    assert_eq!(route.get_port(), 8080);
    assert!(route.is_ssl_enabled());
    assert_eq!(route.get_listen_port(), Some(8443));
    assert!(route.get_redirect_to_https());
}

#[test]
fn test_get_full_url() {
    let route = ProxyRoute::new("localhost".to_string(), "/api".to_string(), 8080, false, None, false);
    assert_eq!(route.get_full_url(), "http://localhost:8080/api");
}

#[test]
fn test_update_route_listen_port_sentinel() {
    let mut config = Config::default();
    let route = ProxyRoute::new("localhost".to_string(), "".to_string(), 8080, false, Some(9000), false);
    config.add_route("tcp.example.com".to_string(), route).unwrap();

    let patch = RoutePatch { listen_port: Some(0), ..empty_patch() };
    config.update_route("tcp.example.com", patch).unwrap();
    assert_eq!(config.lookup_host("tcp.example.com").unwrap().get_listen_port(), None);

    let patch2 = RoutePatch { listen_port: Some(9100), ..empty_patch() };
    config.update_route("tcp.example.com", patch2).unwrap();
    assert_eq!(config.lookup_host("tcp.example.com").unwrap().get_listen_port(), Some(9100));
}

#[test]
fn test_error_messages_exact() {
    let mut config = Config::default();
    let r = ProxyRoute::new("localhost".to_string(), "".to_string(), 8080, false, None, false);
    config.add_route("a.example.com".to_string(), r).unwrap();
    let err = config.add_subroute("a.example.com", "/x".to_string(), 8080).unwrap_err();
    assert_eq!(
        err.message(),
        "Subroute port cannot be the same as the parent route port: 8080"
    );
    let err2 = config.update_route("missing.example.com", empty_patch()).unwrap_err();
    assert_eq!(err2.message(), "Route not found: missing.example.com");
}

#[test]
fn test_remove_route_missing_is_error() {
    let mut config = Config::default();
    let result = config.remove_route("nonexistent.example.com");
    assert!(result.is_err());
    assert!(result.unwrap_err().message().contains("not found"));
}

#[test]
fn test_update_route_invalid_port_changes_nothing() {
    let mut config = Config::default();
    let route = ProxyRoute::new("localhost".to_string(), "/api".to_string(), 8080, true, None, false);
    config.add_route("api.example.com".to_string(), route).unwrap();

    let patch = RoutePatch {
        host: Some("127.0.0.1".to_string()),
        path: Some("/other".to_string()),
        port: Some(443),
        ..empty_patch()
    };
    let result = config.update_route("api.example.com", patch);
    assert!(result.is_err());
    let route = config.lookup_host("api.example.com").unwrap();
    assert_eq!(route.get_host(), "localhost");
    assert_eq!(route.get_path(), "/api");
    assert_eq!(route.get_port(), 8080);
}
