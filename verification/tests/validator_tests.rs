use minipx::config::Config;
use minipx::config::ProxyRoute;

#[test]
fn test_is_ssl_enabled_no_routes() {
    let config = Config::default();
    assert!(!config.is_ssl_enabled());
}

#[test]
fn test_is_ssl_enabled_with_ssl_route() {
    let mut config = Config::default();
    config.routes.push((
        "example.com".to_string(),
        ProxyRoute::new("localhost".to_string(), "/api".to_string(), 8080, true, None, false),
    ));
    assert!(config.is_ssl_enabled());
}

#[test]
fn test_is_ssl_enabled_without_ssl_route() {
    let mut config = Config::default();
    config.routes.push((
        "example.com".to_string(),
        ProxyRoute::new("localhost".to_string(), "/api".to_string(), 8080, false, None, false),
    ));
    assert!(!config.is_ssl_enabled());
}

#[test]
fn test_is_email_valid() {
    let mut config = Config::default();

    config.set_email("".to_string());
    assert!(!config.is_email_valid());

    config.set_email("invalid".to_string());
    assert!(!config.is_email_valid());

    config.set_email("test@".to_string());
    assert!(!config.is_email_valid());

    config.set_email("@example.com".to_string());
    assert!(!config.is_email_valid());

    config.set_email("test @example.com".to_string());
    assert!(!config.is_email_valid());

    config.set_email("test@invalid".to_string());
    assert!(!config.is_email_valid());

    config.set_email("test@example.com".to_string());
    assert!(config.is_email_valid());

    config.set_email("admin@sub.example.com".to_string());
    assert!(config.is_email_valid());

    config.set_email("user.name+tag@example.co.uk".to_string());
    assert!(config.is_email_valid());
}

#[test]
fn test_validate_domain_valid() {
    assert!(Config::validate_domain("example.com"));
    assert!(Config::validate_domain("sub.example.com"));
    assert!(Config::validate_domain("api.v2.example.com"));
    assert!(Config::validate_domain("test-123.example.com"));
    assert!(Config::validate_domain("a.b.c.d.example.com"));
}

#[test]
fn test_validate_domain_invalid() {
    assert!(!Config::validate_domain("*.example.com"));
    assert!(!Config::validate_domain("localhost"));
    assert!(!Config::validate_domain("example.com."));
    assert!(!Config::validate_domain(""));
    assert!(!Config::validate_domain(&format!("{}.com", "a".repeat(64))));
    assert!(!Config::validate_domain("-example.com"));
    assert!(!Config::validate_domain("example-.com"));
    assert!(!Config::validate_domain("exam_ple.com"));
    assert!(!Config::validate_domain("exam ple.com"));
}

#[test]
fn test_get_valid_domains_for_acme() {
    let mut config = Config::default();
    config.set_email("admin@example.com".to_string());

    config.routes.push((
        "api.example.com".to_string(),
        ProxyRoute::new("localhost".to_string(), "/api".to_string(), 8080, true, None, false),
    ));
    config.routes.push((
        "*.example.com".to_string(),
        ProxyRoute::new("localhost".to_string(), "/".to_string(), 8080, true, None, false),
    ));
    config.routes.push((
        "nossl.example.com".to_string(),
        ProxyRoute::new("localhost".to_string(), "/".to_string(), 8080, false, None, false),
    ));
    config.routes.push((
        "localhost".to_string(),
        ProxyRoute::new("localhost".to_string(), "/".to_string(), 8080, true, None, false),
    ));

    let (valid, invalid) = config.get_valid_domains_for_acme();

    assert_eq!(valid.len(), 1);
    assert!(valid.contains(&"api.example.com".to_string()));

    assert_eq!(invalid.len(), 2);
    assert!(invalid.contains(&"*.example.com".to_string()));
    assert!(invalid.contains(&"localhost".to_string()));
}

#[test]
fn test_can_serve_tls_for_host() {
    let mut config = Config::default();
    config.set_email("admin@example.com".to_string());

    config.routes.push((
        "api.example.com".to_string(),
        ProxyRoute::new("localhost".to_string(), "/api".to_string(), 8080, true, None, false),
    ));

    assert!(config.can_serve_tls_for_host("api.example.com"));
    assert!(!config.can_serve_tls_for_host("other.example.com"));

    config.routes[0].1.ssl_enable = false;
    assert!(!config.can_serve_tls_for_host("api.example.com"));
}

#[test]
fn test_acme_domains_scenario() {
    // A wildcard TLS key and a syntactically bad TLS key are reported
    // invalid; a TLS-enabled valid domain is the only valid one; a key
    // without TLS appears in neither set.
    let mut config = Config::default();
    for (key, ssl) in [("*.x.com", true), ("a.x.com", true), ("b.x.com", false), ("bad_domain", true)] {
        config.routes.push((
            key.to_string(),
            ProxyRoute::new("localhost".to_string(), "".to_string(), 8080, ssl, None, false),
        ));
    }
    let (valid, invalid) = config.get_valid_domains_for_acme();
    assert_eq!(valid, vec!["a.x.com".to_string()]);
    assert!(invalid.contains(&"*.x.com".to_string()));
    assert!(invalid.contains(&"bad_domain".to_string()));
    assert!(!invalid.contains(&"b.x.com".to_string()));
    assert!(!valid.contains(&"b.x.com".to_string()));
}

#[test]
fn test_can_serve_tls_flipping_conditions() {
    // Flipping any one of the four conditions makes the answer false.
    let make = |ssl: bool, email: &str| {
        let mut config = Config::default();
        config.set_email(email.to_string());
        config.routes.push((
            "a.x.com".to_string(),
            ProxyRoute::new("localhost".to_string(), "".to_string(), 8080, ssl, None, false),
        ));
        config
    };

    assert!(make(true, "admin@example.com").can_serve_tls_for_host("a.x.com"));
    // Route (and with it the global flag) without TLS.
    assert!(!make(false, "admin@example.com").can_serve_tls_for_host("a.x.com"));
    // Broken email.
    assert!(!make(true, "not-an-email").can_serve_tls_for_host("a.x.com"));
    // Host not in the valid set (wildcard key only).
    let mut config = Config::default();
    config.set_email("admin@example.com".to_string());
    config.routes.push((
        "*.x.com".to_string(),
        ProxyRoute::new("localhost".to_string(), "".to_string(), 8080, true, None, false),
    ));
    assert!(!config.can_serve_tls_for_host("a.x.com"));
    // Route for the host exists but global TLS comes from another route
    // while this one has it off.
    let mut config2 = make(true, "admin@example.com");
    config2.routes.push((
        "b.x.com".to_string(),
        ProxyRoute::new("localhost".to_string(), "".to_string(), 8081, false, None, false),
    ));
    assert!(!config2.can_serve_tls_for_host("b.x.com"));
}
