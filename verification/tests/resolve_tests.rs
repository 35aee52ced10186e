use light::resolve::{
    lookup_script, lookup_start, lookup_step, lookup_step_body, parse_info, parse_uri,
    resolve_from_cache, Lookup, RecordCache, ServiceRecord,
};

fn record(name: &str, ip: &str, port: &str, path: &str) -> ServiceRecord {
    ServiceRecord {
        name: name.to_string(),
        ip: ip.to_string(),
        port: port.to_string(),
        path: path.to_string(),
    }
}

#[test]
fn uri_brackets_ipv6_and_leaves_out_port_80() {
    assert_eq!(parse_uri("2001:db8::1", "80", "/svc"), "http://[2001:db8::1]/svc");
    assert_eq!(parse_uri("2001:db8::1", "9090", "/svc"), "http://[2001:db8::1]:9090/svc");
    assert_eq!(parse_uri("10.0.0.5", "80", "/svc"), "http://10.0.0.5/svc");
    assert_eq!(parse_uri("10.0.0.5", "9090", "/svc"), "http://10.0.0.5:9090/svc");
}

#[test]
fn parse_info_names_the_first_missing_field() {
    let err = parse_info(None, Some("80".to_string()), Some("/s".to_string())).unwrap_err();
    assert_eq!(err.to_text(), "no ip");
    let err = parse_info(Some("::1".to_string()), None, Some("/s".to_string())).unwrap_err();
    assert_eq!(err.to_text(), "no port");
    let err = parse_info(Some("::1".to_string()), Some("80".to_string()), None).unwrap_err();
    assert_eq!(err.to_text(), "no path");
    let ok = parse_info(
        Some("::1".to_string()),
        Some("80".to_string()),
        Some("/s".to_string()),
    )
    .unwrap();
    assert_eq!(ok, ("::1".to_string(), "80".to_string(), "/s".to_string()));
}

#[test]
fn cache_keeps_one_record_per_name() {
    let mut cache = RecordCache::new();
    cache.upsert(record("svc", "10.0.0.1", "80", "/a"));
    cache.upsert(record("svc", "10.0.0.2", "81", "/b"));
    let hit = cache.get("svc").unwrap();
    assert_eq!(hit.ip, "10.0.0.2");
    assert_eq!(hit.port, "81");
    assert_eq!(hit.path, "/b");
    assert!(cache.get("other").is_none());
}

#[test]
fn cache_population_and_reuse() {
    let mut cache = RecordCache::new();
    let name = "svc";
    assert!(resolve_from_cache(&cache, name).is_none());

    // One peer answers; its record is cached and yields the URL.
    let st = lookup_start(1);
    let st = lookup_step(
        st,
        1,
        &mut cache,
        name,
        Some("2001:db8::1".to_string()),
        Some("80".to_string()),
        Some("/svc".to_string()),
    );
    match st {
        Lookup::Resolved { url } => assert_eq!(url, "http://[2001:db8::1]/svc"),
        _ => panic!("expected a resolved lookup"),
    }

    // A second resolution succeeds from the cache alone, peers unreachable.
    let cached = resolve_from_cache(&cache, name).unwrap();
    assert_eq!(cached, "http://[2001:db8::1]/svc");
}

#[test]
fn stale_cache_recovery_uses_the_fresh_answer() {
    let mut cache = RecordCache::new();
    let name = "svc";
    cache.upsert(record(name, "2001:db8::1", "80", "/svc"));
    let stale = resolve_from_cache(&cache, name).unwrap();
    assert_eq!(stale, "http://[2001:db8::1]/svc");

    // The forward attempt came back "not found": re-query the peers.
    let st = lookup_start(1);
    let st = lookup_step(
        st,
        1,
        &mut cache,
        name,
        Some("10.0.0.5".to_string()),
        Some("9090".to_string()),
        Some("/svc".to_string()),
    );
    match st {
        Lookup::Resolved { url } => assert_eq!(url, "http://10.0.0.5:9090/svc"),
        _ => panic!("expected a resolved lookup"),
    }

    // Subsequent requests use the fresh location.
    let fresh = resolve_from_cache(&cache, name).unwrap();
    assert_eq!(fresh, "http://10.0.0.5:9090/svc");
}

#[test]
fn malformed_answers_move_to_the_next_peer_then_fail() {
    let mut cache = RecordCache::new();
    let st = lookup_start(2);
    let st = lookup_step(st, 2, &mut cache, "svc", None, None, None);
    match st {
        Lookup::Querying { next_peer } => assert_eq!(next_peer, 1),
        _ => panic!("expected the lookup to move to the next peer"),
    }
    let st = lookup_step(st, 2, &mut cache, "svc", Some("::1".to_string()), None, None);
    assert!(matches!(st, Lookup::Failed));
    assert!(cache.get("svc").is_none());
}

#[test]
fn no_peers_means_no_route() {
    let st = lookup_start(0);
    assert!(matches!(st, Lookup::Failed));
}

#[test]
fn peer_reply_body_is_decoded_and_cached() {
    let mut cache = RecordCache::new();
    let body = r#"[{"ip":["10.0.0.5"],"port":["9090"],"path":["/svc"]}]"#;
    let st = lookup_start(1);
    let st = lookup_step_body(st, 1, &mut cache, "svc", body);
    match st {
        Lookup::Resolved { url } => assert_eq!(url, "http://10.0.0.5:9090/svc"),
        _ => panic!("expected a resolved lookup"),
    }
    let hit = cache.get("svc").unwrap();
    assert_eq!(hit.ip, "10.0.0.5");
}

#[test]
fn garbage_reply_body_fails_the_single_peer_lookup() {
    let mut cache = RecordCache::new();
    let st = lookup_start(1);
    let st = lookup_step_body(st, 1, &mut cache, "svc", "not json at all");
    assert!(matches!(st, Lookup::Failed));
    assert!(cache.get("svc").is_none());
}

#[test]
fn lookup_script_selects_and_dumps_the_record() {
    let script = lookup_script("svc");
    assert_eq!(
        script,
        vec![
            "$->$:web_server inner root->web_server svc<-name".to_string(),
            "$->$:web_server->$:ip = $->$:web_server->ip _".to_string(),
            "$->$:web_server->$:port = $->$:web_server->port _".to_string(),
            "$->$:web_server->$:path = $->$:web_server->path _".to_string(),
            "$->$:output dump $->$:web_server $".to_string(),
        ]
    );
}
