use light::config::{App, Config, Context, Server};
use light::dto::{Auth, Page, Proxy};
use light::err::{map_io_err, Error};
use light::logger::{LogLevel, StdLooger};
use light::table::list_proxies;

#[test]
fn default_config_values() {
    let config = Config::default();
    assert_eq!(config.name, "light");
    assert_eq!(config.domain, "[::]:8080");
    assert_eq!(config.path, "/light");
    assert!(config.hosts.is_empty());
    assert!(config.proxy.is_empty());
    assert_eq!(config.log_level, "info");
    assert_eq!(config.src, "dist");
}

#[test]
fn context_seeds_the_proxy_table_from_the_config() {
    let mut config = Config::default();
    config.proxy.push(Proxy { path: "/b".to_string(), url: "http://2".to_string() });
    config.proxy.push(Proxy { path: "/a".to_string(), url: "http://1".to_string() });
    let ctx = Context::init(&config);
    assert_eq!(ctx.name, "light");
    assert_eq!(ctx.domain, "[::]:8080");
    assert_eq!(ctx.path, "/light");
    assert_eq!(ctx.src, "dist");
    let entries = list_proxies(&ctx.proxies, &Page { size: 10, number: 0 });
    let keys: Vec<&str> = entries.iter().map(|p| p.path.as_str()).collect();
    assert_eq!(keys, vec!["/a", "/b"]);
}

#[test]
fn server_holds_its_identity_and_peers() {
    let server = Server::new(
        "0.0.0.0".to_string(),
        8080,
        "/light".to_string(),
        "light".to_string(),
        "dist".to_string(),
        vec![Proxy { path: "/a".to_string(), url: "http://1".to_string() }],
        vec!["http://moon-1".to_string()],
    );
    assert_eq!(server.ip, "0.0.0.0");
    assert_eq!(server.port, 8080);
    assert_eq!(server.moon_server_v, vec!["http://moon-1".to_string()]);
    let entries = list_proxies(&server.proxy, &Page { size: 10, number: 0 });
    assert_eq!(entries.len(), 1);
    assert_eq!(entries[0].url, "http://1");
}

#[test]
fn app_hands_back_its_config() {
    let app = App::create_app(Config::default());
    assert_eq!(app.get_config().name, "light");
}

#[test]
fn errors_render_as_text() {
    assert_eq!(Error::Other("boom".to_string()).to_text(), "boom");
    assert_eq!(Error::NotLogin.to_text(), "not login");
    let io_err = std::io::Error::new(std::io::ErrorKind::NotFound, "gone");
    let mapped = map_io_err(io_err);
    assert_eq!(mapped.to_text(), "gone");
}

#[test]
fn logger_keeps_info_and_above() {
    let logger = StdLooger {};
    assert!(logger.enabled(&LogLevel::Error));
    assert!(logger.enabled(&LogLevel::Warn));
    assert!(logger.enabled(&LogLevel::Info));
    assert!(!logger.enabled(&LogLevel::Debug));
    assert!(!logger.enabled(&LogLevel::Trace));
}

#[test]
fn auth_carries_its_fields() {
    let auth = Auth {
        username: "root".to_string(),
        password: "pw".to_string(),
        home: "/home".to_string(),
    };
    assert_eq!(auth.username, "root");
    assert_eq!(auth.home, "/home");
}
