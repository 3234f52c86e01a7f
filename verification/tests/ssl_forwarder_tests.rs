use minipx::config::Config;
use minipx::config::ProxyRoute;
use minipx::ssl::SslGate;

fn route(port: u16, ssl: bool, listen: Option<u16>) -> ProxyRoute {
    ProxyRoute::new("localhost".to_string(), "".to_string(), port, ssl, listen, false)
}

#[test]
fn test_ssl_gate_disabled() {
    let config = Config::default();
    assert!(matches!(config.evaluate_ssl_gate(), SslGate::Disabled));
}

#[test]
fn test_ssl_gate_invalid_email() {
    let mut config = Config::default();
    config.routes.push(("a.x.com".to_string(), route(8080, true, None)));
    assert!(matches!(config.evaluate_ssl_gate(), SslGate::InvalidEmail));
}

#[test]
fn test_ssl_gate_no_valid_domains() {
    let mut config = Config::default();
    config.set_email("admin@example.com".to_string());
    config.routes.push(("*.x.com".to_string(), route(8080, true, None)));
    match config.evaluate_ssl_gate() {
        SslGate::NoValidDomains { invalid } => {
            assert_eq!(invalid, vec!["*.x.com".to_string()]);
        }
        _ => panic!("expected to wait for valid domains"),
    }
}

#[test]
fn test_ssl_gate_serves_sorted_domains() {
    let mut config = Config::default();
    config.set_email("admin@example.com".to_string());
    config.routes.push(("b.x.com".to_string(), route(8080, true, None)));
    config.routes.push(("a.x.com".to_string(), route(8081, true, None)));
    match config.evaluate_ssl_gate() {
        SslGate::Serve { domains, invalid, email, cache_dir } => {
            assert_eq!(domains, vec!["a.x.com".to_string(), "b.x.com".to_string()]);
            assert!(invalid.is_empty());
            assert_eq!(email, "admin@example.com");
            assert_eq!(cache_dir, "./cache");
        }
        _ => panic!("expected to serve"),
    }
}

#[test]
fn test_ssl_restart_decision() {
    let mut config = Config::default();
    config.set_email("admin@example.com".to_string());
    config.routes.push(("a.x.com".to_string(), route(8080, true, None)));
    let (domains, _) = config.get_valid_domains_for_acme();
    let email = config.get_email().clone();
    let cache_dir = config.get_cache_dir().clone();

    // Nothing changed: keep serving.
    assert!(!config.ssl_restart_needed(&domains, &email, &cache_dir));

    // A new TLS domain appears: restart.
    let mut changed = config.clone();
    changed.routes.push(("b.x.com".to_string(), route(8081, true, None)));
    assert!(changed.ssl_restart_needed(&domains, &email, &cache_dir));

    // The email changes: restart.
    let mut changed2 = config.clone();
    changed2.set_email("other@example.com".to_string());
    assert!(changed2.ssl_restart_needed(&domains, &email, &cache_dir));

    // The flag drops: restart.
    let mut changed3 = config.clone();
    changed3.routes[0].1.ssl_enable = false;
    assert!(changed3.ssl_restart_needed(&domains, &email, &cache_dir));

    // The cache directory changes: restart.
    let mut changed4 = config.clone();
    changed4.cache_dir = "./elsewhere".to_string();
    assert!(changed4.ssl_restart_needed(&domains, &email, &cache_dir));
}

#[test]
fn test_forwarder_plan_collects_distinct_ports() {
    let mut config = Config::default();
    config.routes.push(("a.x.com".to_string(), route(8080, false, Some(9500))));
    config.routes.push(("b.x.com".to_string(), route(8081, false, Some(9400))));
    // Duplicate listen port: the first route in stored order wins.
    config.routes.push(("c.x.com".to_string(), route(8082, false, Some(9500))));
    // Ineligible listen ports are skipped.
    config.routes.push(("d.x.com".to_string(), route(8083, false, Some(80))));
    config.routes.push(("e.x.com".to_string(), route(8084, false, Some(443))));
    config.routes.push(("f.x.com".to_string(), route(8085, false, Some(0))));
    config.routes.push(("g.x.com".to_string(), route(8086, false, None)));

    let plan = config.forwarder_plan();
    assert_eq!(plan.len(), 2);
    assert_eq!(plan[0].listen_port, 9400);
    assert_eq!(plan[0].host, "localhost");
    assert_eq!(plan[0].port, 8081);
    assert_eq!(plan[1].listen_port, 9500);
    assert_eq!(plan[1].port, 8080);
}

#[test]
fn test_forwarder_plan_empty_without_listen_ports() {
    let mut config = Config::default();
    config.routes.push(("a.x.com".to_string(), route(8080, true, None)));
    assert!(config.forwarder_plan().is_empty());
}
