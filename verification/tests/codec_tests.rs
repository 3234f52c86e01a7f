use minipx::config::Config;
use minipx::config::ProxyRoute;

fn sample_config() -> Config {
    let mut config = Config::new("./store.json");
    config.set_email("admin@example.com".to_string());
    config
        .add_route(
            "example.com".to_string(),
            ProxyRoute::new("localhost".to_string(), "/app".to_string(), 8080, true, Some(9000), true),
        )
        .unwrap();
    config
        .add_route(
            "*.example.org".to_string(),
            ProxyRoute::new("10.0.0.7".to_string(), "".to_string(), 3000, false, None, false),
        )
        .unwrap();
    config.add_subroute("example.com", "/v1".to_string(), 8081).unwrap();
    config.add_subroute("example.com", "/v2/".to_string(), 8082).unwrap();
    config
}

#[test]
fn test_to_json_exact() {
    let mut config = Config::new("./c.json");
    config.set_email("a@b.co".to_string());
    config
        .add_route(
            "example.com".to_string(),
            ProxyRoute::new("localhost".to_string(), "".to_string(), 8080, false, None, false),
        )
        .unwrap();
    let s = config.to_json();
    assert_eq!(
        s,
        "{\"email\":\"a@b.co\",\"cache_dir\":\"./cache\",\"routes\":{\"example.com\":{\"host\":\"localhost\",\"path\":\"\",\"port\":8080,\"ssl_enable\":false,\"listen_port\":null,\"redirect_to_https\":false,\"subroutes\":[]}}}"
    );
}

#[test]
fn test_round_trip_preserves_everything() {
    let config = sample_config();
    let text = config.to_json();
    let back = Config::parse_config(&text).expect("the store reads back what it wrote");

    assert_eq!(back.get_email(), config.get_email());
    assert_eq!(back.get_cache_dir(), config.get_cache_dir());
    assert_eq!(back.get_routes().len(), config.get_routes().len());
    for (a, b) in back.get_routes().iter().zip(config.get_routes().iter()) {
        assert_eq!(a.0, b.0);
        assert_eq!(a.1.get_host(), b.1.get_host());
        assert_eq!(a.1.get_path(), b.1.get_path());
        assert_eq!(a.1.get_port(), b.1.get_port());
        assert_eq!(a.1.is_ssl_enabled(), b.1.is_ssl_enabled());
        assert_eq!(a.1.get_listen_port(), b.1.get_listen_port());
        assert_eq!(a.1.get_redirect_to_https(), b.1.get_redirect_to_https());
        assert_eq!(a.1.subroutes.len(), b.1.subroutes.len());
        for (x, y) in a.1.subroutes.iter().zip(b.1.subroutes.iter()) {
            assert_eq!(x.path, y.path);
            assert_eq!(x.port, y.port);
        }
    }
}

#[test]
fn test_round_trip_empty_config() {
    let config = Config::new("./c.json");
    let text = config.to_json();
    let back = Config::parse_config(&text).unwrap();
    assert_eq!(back.get_email(), "");
    assert_eq!(back.get_cache_dir(), "./cache");
    assert!(back.get_routes().is_empty());
    assert_eq!(back.to_json(), text);
}

#[test]
fn test_round_trip_escaped_strings() {
    let mut config = Config::new("./c.json");
    config.set_email("quote\"and\\slash@example.com".to_string());
    let text = config.to_json();
    let back = Config::parse_config(&text).unwrap();
    assert_eq!(back.get_email(), "quote\"and\\slash@example.com");
    assert_eq!(back.to_json(), text);
}

#[test]
fn test_parse_then_serialize_is_identity() {
    let text = sample_config().to_json();
    let back = Config::parse_config(&text).unwrap();
    assert_eq!(back.to_json(), text);
}

#[test]
fn test_parse_rejects_corrupt_text() {
    assert!(Config::parse_config("").is_none());
    assert!(Config::parse_config("not json at all").is_none());
    assert!(Config::parse_config("{\"email\":").is_none());
    assert!(Config::parse_config("{\"email\":\"a\",\"cache_dir\":\"c\",\"routes\":{}}extra").is_none());
}

#[test]
fn test_config_new_json_extension() {
    assert_eq!(Config::new("./config").get_path(), "./config.json");
    assert_eq!(Config::new("./minipx.json").get_path(), "./minipx.json");
    assert_eq!(Config::new("./a.b").get_path(), "./a.json");
}

#[test]
fn test_backup_file_name() {
    assert_eq!(minipx::config::backup_file_name("./minipx.json", 1), "./minipx.corrupted.1");
    assert_eq!(minipx::config::backup_file_name("./minipx.json", 12), "./minipx.corrupted.12");
}

#[test]
fn test_round_trip_port_bounds() {
    let mut config = Config::new("./c.json");
    config
        .add_route(
            "a.example.com".to_string(),
            ProxyRoute::new("h".to_string(), "".to_string(), 65535, false, Some(1), false),
        )
        .unwrap();
    config
        .add_route(
            "b.example.com".to_string(),
            ProxyRoute::new("h".to_string(), "".to_string(), 1, false, Some(65535), false),
        )
        .unwrap();
    let text = config.to_json();
    let back = Config::parse_config(&text).unwrap();
    assert_eq!(back.get_routes()[0].1.get_port(), 65535);
    assert_eq!(back.get_routes()[0].1.get_listen_port(), Some(1));
    assert_eq!(back.get_routes()[1].1.get_port(), 1);
    assert_eq!(back.get_routes()[1].1.get_listen_port(), Some(65535));
}
