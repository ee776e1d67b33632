use kubeshim::config::{Config, Context};
use kubeshim::context::{resolve_context, ResolveError};
use kubeshim::ip_set::IpAddress;
use kubeshim::setup::{Route, Setup, SocketAddress};

fn rule(name: &str, address: &str) -> Context {
    Context {
        name: name.to_string(),
        address: if address.is_empty() { None } else { Some(address.to_string()) },
    }
}

fn example_rules() -> Vec<Context> {
    vec![
        rule("hq1", ""),
        rule("hq2", "127.0.0.1:12341"),
        rule("au-prod", "127.0.0.1:12342"),
        rule("us-staging", "127.0.0.1:12343"),
        rule(r"external-\D{2}-(staging|prod)", "8.8.8.8:11111"),
        rule(".*", "127.0.0.1:55555"),
    ]
}

#[test]
fn earlier_rule_wins_over_catch_all() {
    let rules = example_rules();
    assert_eq!(
        resolve_context(&rules, "external-us-prod"),
        Ok(Some("8.8.8.8:11111".to_string()))
    );
    assert_eq!(resolve_context(&rules, "hq2"), Ok(Some("127.0.0.1:12341".to_string())));
    assert_eq!(resolve_context(&rules, "somewhere"), Ok(Some("127.0.0.1:55555".to_string())));
}

#[test]
fn matching_rule_without_address_means_no_proxy() {
    let rules = example_rules();
    assert_eq!(resolve_context(&rules, "hq1"), Ok(None));
}

#[test]
fn no_matching_rule_means_no_proxy() {
    let rules = vec![rule("^prod$", "127.0.0.1:1"), rule("^stage$", "127.0.0.1:2")];
    assert_eq!(resolve_context(&rules, "dev"), Ok(None));
    assert_eq!(resolve_context(&Vec::new(), "dev"), Ok(None));
}

#[test]
fn order_of_rules_decides() {
    let rules = vec![rule(".*", "127.0.0.1:1"), rule("^prod$", "127.0.0.1:2")];
    assert_eq!(resolve_context(&rules, "prod"), Ok(Some("127.0.0.1:1".to_string())));
}

#[test]
fn invalid_pattern_before_match_is_an_error() {
    let rules = vec![rule("(unclosed", "127.0.0.1:1"), rule(".*", "127.0.0.1:2")];
    assert_eq!(resolve_context(&rules, "prod"), Err(ResolveError::InvalidPattern));
}

#[test]
fn invalid_pattern_after_match_is_not_reached() {
    let rules = vec![rule("^prod$", "127.0.0.1:2"), rule("(unclosed", "127.0.0.1:1")];
    assert_eq!(resolve_context(&rules, "prod"), Ok(Some("127.0.0.1:2".to_string())));
}

#[test]
fn end_to_end_routing() {
    let config = Config {
        proxy: vec!["10.0.0.0/8".to_string()],
        no_proxy: ".internal,googleapis.com".to_string(),
        contexts: example_rules(),
    };
    let address = resolve_context(&config.contexts, "external-us-prod").unwrap();
    assert_eq!(address, Some("8.8.8.8:11111".to_string()));
    let socks = SocketAddress { ip: IpAddress::V4(u32::from_be_bytes([8, 8, 8, 8])), port: 11111 };
    let setup = Setup::from_config(&config, Some(socks), "kubeshim.yaml".to_string()).unwrap();
    assert_eq!(setup.no_proxy, ".internal,googleapis.com");
    assert_eq!(setup.route_host(b"10.1.2.3"), Route::ResolveFirst);
    assert_eq!(
        setup.route_ip(&IpAddress::V4(u32::from_be_bytes([10, 1, 2, 3]))),
        Route::Socks5(socks)
    );
    assert_eq!(setup.route_host(b"1.1.1.1"), Route::ResolveFirst);
    assert_eq!(setup.route_ip(&IpAddress::V4(u32::from_be_bytes([1, 1, 1, 1]))), Route::Direct);
}

#[test]
fn host_pattern_routes_without_lookup() {
    let config = Config {
        proxy: vec!["corp.example".to_string()],
        no_proxy: String::new(),
        contexts: Vec::new(),
    };
    let socks = SocketAddress { ip: IpAddress::V4(0x7f00_0001), port: 1080 };
    let setup = Setup::from_config(&config, Some(socks), String::new()).unwrap();
    assert_eq!(setup.route_host(b"api.corp.example"), Route::Socks5(socks));
    assert_eq!(setup.route_host(b"api.other.example"), Route::ResolveFirst);
}

#[test]
fn setup_refuses_bad_proxy_pattern() {
    let config = Config {
        proxy: vec!["ok.com".to_string(), "not ok".to_string()],
        no_proxy: String::new(),
        contexts: Vec::new(),
    };
    assert!(Setup::from_config(&config, None, String::new()).is_err());
}
