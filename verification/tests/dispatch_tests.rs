use light::dispatch::{forward_url, Dispatch, NamedRule, Proxy, ProxyMiddleware};
use light::dto::Proxy as ProxyRule;
use light::table::{add_proxy, ProxyTable};

fn middleware() -> ProxyMiddleware {
    let mut table = ProxyTable::new();
    add_proxy(
        &mut table,
        &ProxyRule { path: "/app".to_string(), url: "http://backend".to_string() },
    );
    add_proxy(
        &mut table,
        &ProxyRule { path: "/app/special".to_string(), url: "http://special".to_string() },
    );
    let named = vec![NamedRule { prefix: "/svc".to_string(), name: "service-one".to_string() }];
    ProxyMiddleware::new(table, named)
}

#[test]
fn directory_prefix_is_passed_through_first() {
    let mw = middleware();
    match mw.dispatch("/moon_server/query") {
        Dispatch::Moon { tail } => assert_eq!(tail, "/query"),
        _ => panic!("expected the directory passthrough"),
    }
}

#[test]
fn direct_rule_forwards_target_plus_remainder() {
    let mw = middleware();
    match mw.dispatch("/app/index.html") {
        Dispatch::Forward { url } => assert_eq!(url, "http://backend/index.html"),
        _ => panic!("expected a direct forward"),
    }
}

#[test]
fn first_matching_direct_rule_wins_in_key_order() {
    let mw = middleware();
    // "/app" sorts before "/app/special" and already matches.
    match mw.dispatch("/app/special/file") {
        Dispatch::Forward { url } => assert_eq!(url, "http://backend/special/file"),
        _ => panic!("expected a direct forward"),
    }
}

#[test]
fn named_service_prefix_resolves() {
    let mw = middleware();
    match mw.dispatch("/svc/api/list") {
        Dispatch::Resolve { name, tail } => {
            assert_eq!(name, "service-one");
            assert_eq!(tail, "/api/list");
        },
        _ => panic!("expected a resolution"),
    }
}

#[test]
fn unmatched_path_falls_through() {
    let mw = middleware();
    assert!(matches!(mw.dispatch("/static/logo.png"), Dispatch::Pass));
}

#[test]
fn query_string_rides_along_verbatim() {
    assert_eq!(forward_url("http://backend/x", ""), "http://backend/x");
    assert_eq!(forward_url("http://backend/x", "a=1&b=2"), "http://backend/x?a=1&b=2");
}

#[test]
fn middleware_factory_builds() {
    let _ = Proxy::new();
}
