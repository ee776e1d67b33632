use kubeshim::config::Config;
use kubeshim::ip_set::IpAddress;
use kubeshim::launch::{
    exit_code, plan_launch, proxy_env, race_result, LaunchError, LaunchPlan, RaceWinner,
    INTERRUPTED, NO_EXIT_CODE,
};
use kubeshim::relay::{Relay, RelayAction, RelayEvent};
use kubeshim::setup::{Setup, SocketAddress};

fn empty_config() -> Config {
    Config { proxy: Vec::new(), no_proxy: "localhost".to_string(), contexts: Vec::new() }
}

#[test]
fn no_address_runs_direct() {
    let setup = Setup::from_config(&empty_config(), None, String::new()).unwrap();
    assert_eq!(plan_launch(&setup), LaunchPlan::Direct);
}

#[test]
fn address_runs_proxied() {
    let socks = SocketAddress { ip: IpAddress::V4(0x0808_0808), port: 11111 };
    let setup = Setup::from_config(&empty_config(), Some(socks), String::new()).unwrap();
    assert_eq!(plan_launch(&setup), LaunchPlan::Proxied(socks));
}

#[test]
fn proxied_child_environment() {
    let env = proxy_env(40123, &".internal,googleapis.com".to_string());
    let expected: Vec<(String, String)> = vec![
        ("HTTP_PROXY", "http://127.0.0.1:40123"),
        ("HTTPS_PROXY", "http://127.0.0.1:40123"),
        ("http_proxy", "http://127.0.0.1:40123"),
        ("NO_PROXY", ".internal,googleapis.com"),
        ("no_proxy", ".internal,googleapis.com"),
    ]
    .into_iter()
    .map(|(k, v)| (k.to_string(), v.to_string()))
    .collect();
    assert_eq!(env, expected);
    assert_eq!(proxy_env(7, &String::new())[0].1, "http://127.0.0.1:7");
    assert_eq!(proxy_env(65535, &String::new())[1].1, "http://127.0.0.1:65535");
}

#[test]
fn exit_codes() {
    assert_eq!(exit_code(Some(0)), 0);
    assert_eq!(exit_code(Some(3)), 3);
    assert_eq!(exit_code(None), 127);
    assert_eq!(NO_EXIT_CODE, 127);
}

#[test]
fn race_outcomes() {
    assert_eq!(race_result(RaceWinner::ChildExited(Some(2))), Ok(2));
    assert_eq!(race_result(RaceWinner::ChildExited(None)), Ok(127));
    assert_eq!(race_result(RaceWinner::ProxyFailed), Err(LaunchError::ProxyFailed));
    assert_eq!(race_result(RaceWinner::Interrupted), Ok(INTERRUPTED));
    assert_eq!(INTERRUPTED, 1);
}

#[test]
fn relay_reports_bytes_each_way() {
    let mut relay = Relay::new();
    assert_eq!(relay.step(RelayEvent::FromClient(100)), RelayAction::ToUpstream(100));
    assert_eq!(relay.step(RelayEvent::FromUpstream(4096)), RelayAction::ToClient(4096));
    assert_eq!(relay.step(RelayEvent::FromClient(23)), RelayAction::ToUpstream(23));
    assert_eq!(relay.step(RelayEvent::FromUpstream(1)), RelayAction::ToClient(1));
    assert_eq!(relay.step(RelayEvent::UpstreamClosed), RelayAction::Done(123, 4097));
    assert!(relay.finished);
}

#[test]
fn relay_with_no_data() {
    let mut relay = Relay::new();
    assert_eq!(relay.step(RelayEvent::ClientClosed), RelayAction::Done(0, 0));
}

#[test]
fn relay_stops_on_error() {
    let mut relay = Relay::new();
    relay.step(RelayEvent::FromClient(10));
    assert_eq!(relay.step(RelayEvent::Failed), RelayAction::Abort);
    assert!(relay.finished);
    assert_eq!(relay.from_client, 10);
}
