use minipx::config::Config;

// A file as the earlier tooling wrote it: pretty-printed, optional
// fields omitted.
const PRETTY: &str = r#"{
  "email": "admin@example.com",
  "cache_dir": "./cache",
  "routes": {
    "example.com": {
      "host": "localhost",
      "path": "/app",
      "port": 8080,
      "ssl_enable": true,
      "redirect_to_https": false
    },
    "api.example.com": {
      "host": "10.0.0.7",
      "path": "",
      "port": 3000,
      "ssl_enable": false,
      "listen_port": 9000,
      "redirect_to_https": true,
      "subroutes": [
        { "path": "/v1", "port": 3001 },
        { "path": "/v2", "port": 3002 }
      ]
    }
  }
}"#;

#[test]
fn test_forgiving_reads_pretty_file_with_omitted_fields() {
    let c = Config::parse_config_forgiving(PRETTY).expect("pretty file loads");
    assert_eq!(c.get_email(), "admin@example.com");
    assert_eq!(c.get_cache_dir(), "./cache");
    assert_eq!(c.get_routes().len(), 2);
    let r0 = &c.get_routes()[0].1;
    assert_eq!(c.get_routes()[0].0, "example.com");
    assert_eq!(r0.get_host(), "localhost");
    assert_eq!(r0.get_path(), "/app");
    assert_eq!(r0.get_port(), 8080);
    assert!(r0.is_ssl_enabled());
    assert_eq!(r0.get_listen_port(), None);
    assert!(r0.subroutes.is_empty());
    let r1 = &c.get_routes()[1].1;
    assert_eq!(r1.get_listen_port(), Some(9000));
    assert_eq!(r1.subroutes.len(), 2);
    assert_eq!(r1.subroutes[0].path, "/v1");
    assert_eq!(r1.subroutes[1].port, 3002);
}

#[test]
fn test_forgiving_accepts_any_key_order_and_unknown_keys() {
    let text = r#"{ "routes": { "a.x.com": { "port": 81, "host": "h", "extra": [1, {"deep": null}], "ssl_enable": true } }, "comment": "ignored", "cache_dir": "/tmp/cache", "email": "a@b.co" }"#;
    let c = Config::parse_config_forgiving(text).unwrap();
    assert_eq!(c.get_email(), "a@b.co");
    assert_eq!(c.get_cache_dir(), "/tmp/cache");
    let r = &c.get_routes()[0].1;
    assert_eq!(r.get_host(), "h");
    assert_eq!(r.get_port(), 81);
    assert!(r.is_ssl_enabled());
}

#[test]
fn test_forgiving_wrong_typed_scalars_take_defaults() {
    let text = r#"{ "email": 42, "cache_dir": [true], "routes": { "a.x.com": { "host": 7, "path": null, "port": "eighty", "ssl_enable": "yes", "listen_port": {}, "redirect_to_https": 1 } } }"#;
    let c = Config::parse_config_forgiving(text).unwrap();
    assert_eq!(c.get_email(), "");
    assert_eq!(c.get_cache_dir(), "");
    let r = &c.get_routes()[0].1;
    assert_eq!(r.get_host(), "");
    assert_eq!(r.get_path(), "");
    assert_eq!(r.get_port(), 0);
    assert!(!r.is_ssl_enabled());
    assert_eq!(r.get_listen_port(), None);
    assert!(!r.get_redirect_to_https());
}

#[test]
fn test_forgiving_missing_fields_take_their_defaults() {
    let c = Config::parse_config_forgiving(r#"{ "routes": { "a.x.com": {} } }"#).unwrap();
    assert_eq!(c.get_email(), "");
    assert_eq!(c.get_cache_dir(), "./cache");
    let r = &c.get_routes()[0].1;
    assert_eq!(r.get_host(), "localhost");
    assert_eq!(r.get_path(), "");
    assert_eq!(r.get_port(), 0);
    let c2 = Config::parse_config_forgiving("{}").unwrap();
    assert_eq!(c2.get_cache_dir(), "./cache");
    assert!(c2.get_routes().is_empty());
}

#[test]
fn test_forgiving_listen_port_bounds() {
    let make = |lp: &str| {
        let text = format!(
            "{{ \"routes\": {{ \"a.x.com\": {{ \"port\": 81, \"listen_port\": {} }} }} }}",
            lp
        );
        Config::parse_config_forgiving(&text).unwrap().get_routes()[0].1.get_listen_port()
    };
    assert_eq!(make("9000"), Some(9000));
    assert_eq!(make("null"), None);
    assert_eq!(make("0"), None);
    assert_eq!(make("65535"), None);
    assert_eq!(make("70000"), None);
}

#[test]
fn test_forgiving_duplicate_route_key_keeps_the_later() {
    let text = r#"{ "routes": { "a.x.com": { "port": 81 }, "a.x.com": { "port": 82 } } }"#;
    let c = Config::parse_config_forgiving(text).unwrap();
    assert_eq!(c.get_routes().len(), 1);
    assert_eq!(c.get_routes()[0].1.get_port(), 82);
}

#[test]
fn test_forgiving_structural_damage_still_fails() {
    // A duplicate field of the top object, a route map that is not an
    // object, a subroute list that is not an array, trailing text.
    assert!(Config::parse_config_forgiving(r#"{ "email": "a", "email": "b" }"#).is_none());
    assert!(Config::parse_config_forgiving(r#"{ "routes": [1, 2] }"#).is_none());
    assert!(Config::parse_config_forgiving(
        r#"{ "routes": { "a.x.com": { "subroutes": 5 } } }"#
    )
    .is_none());
    assert!(Config::parse_config_forgiving("{} trailing").is_none());
    assert!(Config::parse_config_forgiving("not json").is_none());
    assert!(Config::parse_config_forgiving("").is_none());
}

#[test]
fn test_forgiving_round_trip_on_canonical_text() {
    let mut config = Config::new("./c.json");
    config.set_email("admin@example.com".to_string());
    config
        .add_route(
            "example.com".to_string(),
            minipx::config::ProxyRoute::new(
                "localhost".to_string(),
                "/app".to_string(),
                8080,
                true,
                Some(9000),
                true,
            ),
        )
        .unwrap();
    config.add_subroute("example.com", "/v1".to_string(), 8081).unwrap();
    let text = config.to_json();
    let back = Config::parse_config_forgiving(&text).unwrap();
    assert_eq!(back.to_json(), text);
}

#[test]
fn test_forgiving_string_escapes() {
    let text = r#"{ "email": "a\"b\\c\/d\ne@x.co" }"#;
    let c = Config::parse_config_forgiving(text).unwrap();
    assert_eq!(c.get_email(), "a\"b\\c/d\ne@x.co");
}
