//! Request-time dispatch.
//!
//! For each inbound request path the middleware decides one of four things:
//! pass the request through to the directory tier, forward it to a direct
//! rule's target, resolve a named service and forward there, or fall
//! through to the next handler (static files). Direct rules are
//! authoritative and consulted before named-service prefixes; within each
//! table the first matching prefix wins, in key order.

use vstd::prelude::*;

use crate::table::{spec_first_match, Entry, ProxyTable};
use crate::text::is_prefix_of;

verus! {

/// The path prefix under which requests are passed through to the first
/// configured directory peer.
pub fn moon_service_path() -> (r: &'static str)
    ensures
        r@ == "/moon_server"@,
{
    "/moon_server"
}

/// A named-service rule: requests whose path starts with `prefix` are
/// resolved under `name` and forwarded to wherever that service lives.
pub struct NamedRule {
    pub prefix: String,
    pub name: String,
}

impl View for NamedRule {
    type V = (Seq<char>, Seq<char>);

    open spec fn view(&self) -> (Seq<char>, Seq<char>) {
        (self.prefix@, self.name@)
    }
}

/// What the middleware decides for one inbound request path.
pub enum Dispatch {
    /// Pass through to the directory tier, keeping the path after the
    /// directory prefix.
    Moon { tail: String },
    /// Forward to a direct rule's target plus the remainder of the path.
    Forward { url: String },
    /// Resolve the named service, then forward the remainder of the path.
    Resolve { name: String, tail: String },
    /// No rule matched: the next handler serves the request.
    Pass,
}

/// The request-time dispatcher: the admin-managed direct rules, consulted
/// first, and the named-service prefixes resolved through the directory
/// peers.
pub struct ProxyMiddleware {
    pub table: ProxyTable,
    pub named: Vec<NamedRule>,
}

/// The middleware factory: wraps the dispatcher around the next handler in
/// the chain.
pub struct Proxy {}

impl Proxy {
    pub fn new() -> (r: Proxy) {
        Proxy {  }
    }
}

impl ProxyMiddleware {
    /// A dispatcher over the given rules.
    pub fn new(table: ProxyTable, named: Vec<NamedRule>) -> (r: ProxyMiddleware)
        ensures
            r.table == table,
            r.named == named,
    {
        ProxyMiddleware { table, named }
    }

    /// The named rules as modelled entries.
    pub open spec fn named_entries(&self) -> Seq<Entry> {
        self.named@.map_values(|n: NamedRule| n@)
    }

    /// Decides one request: the directory prefix first, then the first
    /// matching direct rule, then the first matching named-service prefix,
    /// else the fallback. The remainder of the path after the matched
    /// prefix rides along.
    pub fn dispatch(&self, path: &str) -> (r: Dispatch)
        ensures
            is_prefix_of("/moon_server"@, path@) ==> (r matches Dispatch::Moon { tail } && tail@
                == path@.skip("/moon_server"@.len() as int)),
            !is_prefix_of("/moon_server"@, path@) ==> match spec_first_match(self.table@, path@) {
                Some(e) => r matches Dispatch::Forward { url } && url@ == e.1 + path@.skip(
                    e.0.len() as int,
                ),
                None => match spec_first_match(self.named_entries(), path@) {
                    Some(n) => r matches Dispatch::Resolve { name, tail } && name@ == n.1 && tail@
                        == path@.skip(n.0.len() as int),
                    None => r is Pass,
                },
            },
    {
        route(&self.table, &self.named, path)
    }
}

/// Decides one request against the given rules: the directory prefix
/// first, then the first matching direct rule, then the first matching
/// named-service prefix, else the fallback. The remainder of the path
/// after the matched prefix rides along.
pub fn route(table: &ProxyTable, named: &Vec<NamedRule>, path: &str) -> (r: Dispatch)
    ensures
        is_prefix_of("/moon_server"@, path@) ==> (r matches Dispatch::Moon { tail } && tail@
            == path@.skip("/moon_server"@.len() as int)),
        !is_prefix_of("/moon_server"@, path@) ==> match spec_first_match(table@, path@) {
            Some(e) => r matches Dispatch::Forward { url } && url@ == e.1 + path@.skip(
                e.0.len() as int,
            ),
            None => match spec_first_match(named@.map_values(|n: NamedRule| n@), path@) {
                Some(n) => r matches Dispatch::Resolve { name, tail } && name@ == n.1 && tail@
                    == path@.skip(n.0.len() as int),
                None => r is Pass,
            },
        },
{
    let moon = moon_service_path();
    if crate::text::str_starts_with(path, moon) {
        let tail = crate::text::str_tail(path, moon.unicode_len());
        return Dispatch::Moon { tail };
    }
    match table.first_match(path) {
        Some((prefix_len, target)) => {
            let mut url = target;
            let tail = crate::text::str_tail(path, prefix_len);
            url.append(tail.as_str());
            Dispatch::Forward { url }
        },
        None => {
            match first_named_match(named, path) {
                Some((prefix_len, name)) => {
                    let tail = crate::text::str_tail(path, prefix_len);
                    Dispatch::Resolve { name, tail }
                },
                None => Dispatch::Pass,
            }
        },
    }
}

/// The first named rule whose prefix starts `path`: its prefix length and
/// its service name.
fn first_named_match(named: &Vec<NamedRule>, path: &str) -> (r: Option<(usize, String)>)
    ensures
        match spec_first_match(named@.map_values(|n: NamedRule| n@), path@) {
            Some(n) => r matches Some((l, name)) && l == n.0.len() && name@ == n.1
                && is_prefix_of(n.0, path@),
            None => r is None,
        },
{
    let ghost s = named@.map_values(|n: NamedRule| n@);
    let len = named.len();
    let mut i: usize = 0;
        proof {
            assert(s.skip(0) =~= s);
        }
    loop
        invariant
            0 <= i <= len,
            len == named@.len(),
            s == named@.map_values(|n: NamedRule| n@),
            spec_first_match(s, path@) == spec_first_match(s.skip(i as int), path@),
        ensures
            0 <= i <= len,
            spec_first_match(s, path@) == spec_first_match(s.skip(i as int), path@),
            i < len ==> is_prefix_of(s[i as int].0, path@),
        decreases len - i,
    {
        if i >= len {
            break ;
        }
        proof {
            assert(s[i as int] == named@[i as int]@);
        }
        if crate::text::str_starts_with(path, named[i].prefix.as_str()) {
            break ;
        }
        proof {
            assert(s.skip(i as int)[0] == s[i as int]);
            assert(spec_first_match(s.skip(i as int), path@) == spec_first_match(
                s.skip(i as int).skip(1),
                path@,
            ));
            assert forall|j: int| 0 <= j < s.len() - i - 1 implies #[trigger] s.skip(
                i as int,
            ).skip(1)[j] == s.skip(i + 1)[j] by {
                assert(s.skip(i as int).skip(1)[j] == s.skip(i as int)[j + 1]);
                assert(s.skip(i as int)[j + 1] == s[i + 1 + j]);
                assert(s.skip(i + 1)[j] == s[i + 1 + j]);
            }
            assert(s.skip(i as int).skip(1) =~= s.skip(i + 1));
        }
        i = i + 1;
    }
    if i < len {
        proof {
            assert(s.skip(i as int)[0] == s[i as int]);
            assert(spec_first_match(s.skip(i as int), path@) == Some(s[i as int]));
            assert(s[i as int] == named@[i as int]@);
        }
        let prefix_len = named[i].prefix.as_str().unicode_len();
        let name = String::from_str(named[i].name.as_str());
        Some((prefix_len, name))
    } else {
        proof {
            assert(s.skip(i as int) =~= Seq::<Entry>::empty());
        }
        None
    }
}

/// Appends the preserved query string to a forwarded URL: nothing when the
/// query is empty, else `?` and the query verbatim.
pub fn forward_url(base: &str, query: &str) -> (r: String)
    ensures
        query@.len() == 0 ==> r@ == base@,
        query@.len() > 0 ==> r@ == base@ + "?"@ + query@,
{
    let mut r = String::from_str(base);
    if query.unicode_len() > 0 {
        r.append("?");
        r.append(query);
    }
    r
}

} // verus!
