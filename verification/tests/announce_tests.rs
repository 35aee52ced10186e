use light::announce::{
    announce_script, announce_summary, check_global_ipv6, choose_announce_ip, peer_list_script,
    select_global_ipv6, self_info_script,
};

#[test]
fn autodetection_skips_link_local_and_loopback() {
    let addrs = vec!["fe80::1".to_string(), "::1".to_string(), "2001:db8::5".to_string()];
    assert_eq!(select_global_ipv6(&addrs).unwrap(), "2001:db8::5");
}

#[test]
fn autodetection_fails_without_a_global_address() {
    let addrs = vec!["fe80::1".to_string(), "::1".to_string()];
    assert!(select_global_ipv6(&addrs).is_none());
}

#[test]
fn global_ipv6_classification() {
    assert!(check_global_ipv6("2001:db8::5"));
    assert!(check_global_ipv6("fd00::1"));
    assert!(!check_global_ipv6("fe80::1"));
    assert!(!check_global_ipv6("febf::1"));
    assert!(!check_global_ipv6("::1"));
    assert!(!check_global_ipv6("::"));
    assert!(!check_global_ipv6("10.0.0.5"));
    // A first hextet that merely begins like the link-local range is kept.
    assert!(check_global_ipv6("fe8::1"));
    assert!(check_global_ipv6("fec0::1"));
}

#[test]
fn configured_domain_wins_over_autodetection() {
    let domains = vec!["example.org".to_string(), "other.org".to_string()];
    assert_eq!(choose_announce_ip(&domains).unwrap(), "example.org");
}

#[test]
fn one_failing_peer_does_not_hide_the_delivery_to_the_other() {
    // Peers [A (fails), B (succeeds)]: B is still delivered to, and exactly
    // one failure is counted for A.
    let outcomes = vec![false, true];
    let summary = announce_summary(&outcomes);
    assert_eq!(summary.delivered, 1);
    assert_eq!(summary.failed, 1);
}

#[test]
fn summary_counts_every_peer() {
    let outcomes = vec![true, false, true, true, false];
    let summary = announce_summary(&outcomes);
    assert_eq!(summary.delivered, 3);
    assert_eq!(summary.failed, 2);
    let none = announce_summary(&Vec::new());
    assert_eq!(none.delivered, 0);
    assert_eq!(none.failed, 0);
}

#[test]
fn announce_script_upserts_by_name() {
    let script = announce_script("light", "2001:db8::5", "8080", "/light");
    assert_eq!(
        script,
        vec![
            "$->$:server_exists inner root->web_server light<-name".to_string(),
            "$->$:web_server if $->$:server_exists ?".to_string(),
            "$->$:web_server->name = light _".to_string(),
            "$->$:web_server->ip = 2001:db8::5 _".to_string(),
            "$->$:web_server->port = 8080 _".to_string(),
            "$->$:web_server->path = /light _".to_string(),
            "$->$:web_server left $->$:web_server $->$:server_exists".to_string(),
            "root->web_server append root->web_server $->$:web_server".to_string(),
        ]
    );
}

#[test]
fn store_scripts_read_identity_and_peers() {
    assert_eq!(
        self_info_script(),
        vec![
            "$->$:output = root->name _".to_string(),
            "$->$:output append $->$:output root->port".to_string(),
            "$->$:output append $->$:output root->path".to_string(),
        ]
    );
    assert_eq!(peer_list_script(), vec!["$->$:output = root->moon_server _".to_string()]);
}
