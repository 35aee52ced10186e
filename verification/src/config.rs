//! Node configuration and the explicitly constructed runtime context.
//!
//! The context replaces ambient global state: it is built once from the
//! configuration and handed by reference into the server, the dispatcher
//! and the announcer.

use vstd::prelude::*;

use crate::dto::Proxy;
use crate::table::{build_table, spec_insert_all, Entry, ProxyTable};

verus! {

/// The node's configuration, read once at startup.
pub struct Config {
    /// The node's announced name.
    pub name: String,
    /// The address the server binds, or the announced domain.
    pub domain: String,
    /// The base path this node serves under.
    pub path: String,
    /// Nodes to register this node's base path with at startup.
    pub hosts: Vec<String>,
    /// The seed rules of the direct proxy table.
    pub proxy: Vec<Proxy>,
    /// The log level the process runs at.
    pub log_level: String,
    /// The directory that static assets are served from.
    pub src: String,
}

impl Default for Config {
    /// The configuration a bare node starts with.
    fn default() -> (r: Config)
        ensures
            r.name@ == "light"@,
            r.domain@ == "[::]:8080"@,
            r.path@ == "/light"@,
            r.hosts@.len() == 0,
            r.proxy@.len() == 0,
            r.log_level@ == "info"@,
            r.src@ == "dist"@,
    {
        Config {
            name: String::from_str("light"),
            domain: String::from_str("[::]:8080"),
            path: String::from_str("/light"),
            hosts: Vec::new(),
            proxy: Vec::new(),
            log_level: String::from_str("info"),
            src: String::from_str("dist"),
        }
    }
}

/// The runtime context: the node's identity and the admin-managed proxy
/// table, built once from the configuration.
pub struct Context {
    pub name: String,
    pub domain: String,
    pub path: String,
    pub src: String,
    pub proxies: ProxyTable,
}

impl Context {
    /// Builds the context from the configuration; the seed rules fill the
    /// proxy table in order.
    pub fn init(config: &Config) -> (r: Context)
        ensures
            r.name@ == config.name@,
            r.domain@ == config.domain@,
            r.path@ == config.path@,
            r.src@ == config.src@,
            r.proxies.wf(),
            r.proxies@ == spec_insert_all(
                Seq::<Entry>::empty(),
                config.proxy@.map_values(|p: Proxy| p@),
            ),
    {
        Context {
            name: String::from_str(config.name.as_str()),
            domain: String::from_str(config.domain.as_str()),
            path: String::from_str(config.path.as_str()),
            src: String::from_str(config.src.as_str()),
            proxies: build_table(&config.proxy),
        }
    }
}

/// The application: its configuration, held for the handlers.
pub struct App {
    config: Config,
}

impl App {
    /// Makes the application out of its configuration.
    pub fn create_app(config: Config) -> (r: App)
        ensures
            r.get_config_spec() == config,
    {
        App { config }
    }

    /// The configuration the application runs with.
    pub closed spec fn get_config_spec(&self) -> Config {
        self.config
    }

    /// The configuration the application runs with.
    pub fn get_config(&self) -> (r: &Config)
        ensures
            *r == self.get_config_spec(),
    {
        &self.config
    }
}

/// The server: this node's identity, its direct proxy table, and the
/// directory peers it announces itself to.
pub struct Server {
    pub ip: String,
    pub name: String,
    pub port: u16,
    pub path: String,
    pub src: String,
    pub proxy: ProxyTable,
    pub moon_server_v: Vec<String>,
}

impl Server {
    /// Assembles a server; the seed rules fill its proxy table in order.
    pub fn new(
        ip: String,
        port: u16,
        path: String,
        name: String,
        src: String,
        proxy: Vec<Proxy>,
        moon_server_v: Vec<String>,
    ) -> (r: Server)
        ensures
            r.ip == ip,
            r.port == port,
            r.path == path,
            r.name == name,
            r.src == src,
            r.moon_server_v == moon_server_v,
            r.proxy.wf(),
            r.proxy@ == spec_insert_all(Seq::<Entry>::empty(), proxy@.map_values(|p: Proxy| p@)),
    {
        let table = build_table(&proxy);
        Server { ip, port, path, name, src, proxy: table, moon_server_v }
    }
}

} // verus!
