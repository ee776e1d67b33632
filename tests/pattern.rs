use kubeshim::ip_set::IpAddress;
use kubeshim::pattern::{Pattern, PatternError};

fn v4(a: u8, b: u8, c: u8, d: u8) -> IpAddress {
    IpAddress::V4(u32::from_be_bytes([a, b, c, d]))
}

#[test]
fn host_matches_itself_and_subdomains() {
    let p = Pattern::from_strs(vec![".internal", "googleapis.com"]).unwrap();
    assert!(p.contain_host(b"googleapis.com"));
    assert!(p.contain_host(b"storage.googleapis.com"));
    assert!(p.contain_host(b"a.b.googleapis.com"));
    assert!(p.contain_host(b"svc.internal"));
    assert!(!p.contain_host(b"internal"));
    assert!(!p.contain_host(b"googleapis.org"));
    assert!(!p.contain_host(b"com"));
    assert!(!p.contain_host(b""));
}

#[test]
fn host_match_ignores_case() {
    let p = Pattern::from_strs(vec!["Example.COM"]).unwrap();
    assert!(p.contain_host(b"example.com"));
    assert!(p.contain_host(b"WWW.EXAMPLE.com"));
}

#[test]
fn host_match_is_dot_aligned() {
    let p = Pattern::from_strs(vec!["ample.com"]).unwrap();
    assert!(p.contain_host(b"ample.com"));
    assert!(p.contain_host(b"www.ample.com"));
    assert!(!p.contain_host(b"example.com"));
    assert!(!p.contain_host(b"ample.co"));
    assert!(!p.contain_host(b"mple.com"));
}

#[test]
fn leading_dot_pattern_matches_any_ending() {
    let p = Pattern::from_strs(vec![".internal"]).unwrap();
    assert!(p.contain_host(b".internal"));
    assert!(p.contain_host(b"svc.internal"));
    assert!(p.contain_host(b"a.b.INTERNAL"));
    assert!(!p.contain_host(b"internal"));
    assert!(!p.contain_host(b"xinternal"));
}

#[test]
fn shorter_name_covers_its_subdomains_only() {
    let p = Pattern::from_strs(vec!["a.b.com", "com", "x.org"]).unwrap();
    assert!(p.contain_host(b"anything.com"));
    assert!(p.contain_host(b"a.b.com"));
    assert!(p.contain_host(b"com"));
    assert!(!p.contain_host(b"xcom"));
    assert!(p.contain_host(b"x.org"));
    assert!(!p.contain_host(b"y.org"));
    assert!(!p.contain_host(b"ax.org"));
}

#[test]
fn longer_name_added_after_shorter_one() {
    let p = Pattern::from_strs(vec!["com", "a.bcom", "b.org"]).unwrap();
    assert!(p.contain_host(b"x.com"));
    assert!(p.contain_host(b"a.bcom"));
    assert!(p.contain_host(b"z.a.bcom"));
    assert!(!p.contain_host(b"bcom"));
    assert!(!p.contain_host(b"a.org"));
}

#[test]
fn empty_pattern_matches_empty_and_dot_ended_names() {
    let p = Pattern::from_strs(vec![""]).unwrap();
    assert!(p.contain_host(b""));
    assert!(p.contain_host(b"any.host."));
    assert!(!p.contain_host(b"any.host"));
}

#[test]
fn unknown_byte_in_host_does_not_match() {
    let p = Pattern::from_strs(vec!["example.com"]).unwrap();
    assert!(!p.contain_host(b"exa_mple.co"));
    assert!(p.contain_host(b"a_b.example.com"));
}

#[test]
fn invalid_character_is_refused() {
    assert!(matches!(
        Pattern::from_strs(vec!["good.com", "bad_host.com"]),
        Err(PatternError::InvalidCharacter)
    ));
    let mut p = Pattern::default();
    assert_eq!(p.add("exa mple.com"), Err(PatternError::InvalidCharacter));
    assert!(!p.contain_host(b"mple.com"));
    assert_eq!(p.add("com"), Ok(()));
    assert_eq!(p.add("x$.com"), Err(PatternError::InvalidCharacter));
}

#[test]
fn cidr_containment_v4() {
    let p = Pattern::from_strs(vec!["10.0.0.0/8", "192.168.1.0/24"]).unwrap();
    assert!(p.contain_ip(&v4(10, 1, 2, 3)));
    assert!(p.contain_ip(&v4(10, 255, 255, 255)));
    assert!(!p.contain_ip(&v4(11, 0, 0, 0)));
    assert!(p.contain_ip(&v4(192, 168, 1, 77)));
    assert!(!p.contain_ip(&v4(192, 168, 2, 1)));
    assert!(!p.contain_ip(&v4(1, 1, 1, 1)));
    assert!(!p.contain_host(b"10.1.2.3"));
}

#[test]
fn cidr_host_bits_do_not_matter() {
    let p = Pattern::from_strs(vec!["10.1.2.3/8"]).unwrap();
    assert!(p.contain_ip(&v4(10, 9, 9, 9)));
    assert!(!p.contain_ip(&v4(9, 1, 2, 3)));
}

#[test]
fn cidr_containment_v6() {
    let p = Pattern::from_strs(vec!["fd00::/8"]).unwrap();
    assert!(p.contain_ip(&IpAddress::V6(0xfd12_0000_0000_0000_0000_0000_0000_0001)));
    assert!(!p.contain_ip(&IpAddress::V6(0xfe00_0000_0000_0000_0000_0000_0000_0001)));
    assert!(!p.contain_ip(&v4(253, 0, 0, 1)));
}

#[test]
fn whole_space_blocks() {
    let p = Pattern::from_strs(vec!["0.0.0.0/0"]).unwrap();
    assert!(p.contain_ip(&v4(255, 255, 255, 255)));
    assert!(p.contain_ip(&v4(0, 0, 0, 0)));
    assert!(!p.contain_ip(&IpAddress::V6(1)));
}

#[test]
fn build_keeps_every_address() {
    let mut p = Pattern::default();
    for s in ["192.168.0.0/24", "192.168.1.0/24", "192.168.0.128/25", "10.0.0.1/32"] {
        p.add(s).unwrap();
    }
    let probes = [
        v4(192, 168, 0, 1),
        v4(192, 168, 1, 255),
        v4(192, 168, 2, 0),
        v4(10, 0, 0, 1),
        v4(10, 0, 0, 2),
        v4(192, 167, 255, 255),
    ];
    let before: Vec<bool> = probes.iter().map(|ip| p.contain_ip(ip)).collect();
    p.build();
    let after: Vec<bool> = probes.iter().map(|ip| p.contain_ip(ip)).collect();
    assert_eq!(before, after);
    assert_eq!(after, vec![true, true, false, true, false, false]);
}

#[test]
fn prefix_without_slash_is_a_host_name() {
    let p = Pattern::from_strs(vec!["10.0.0.1"]).unwrap();
    assert!(p.contain_host(b"10.0.0.1"));
    assert!(!p.contain_host(b"110.0.0.1"));
    assert!(!p.contain_ip(&v4(10, 0, 0, 1)));
}
